//! Who runs next: processes take turns, quotas hold, and no hart sleeps while
//! there is something it could run.
use crate::task::sched::{self, Next, STASH};
use crate::task::state::{ProcV, SchedV, State, MAX_CG, MAX_HART};
use vstd::prelude::*;

verus! {

/// Hart `h` could run the process: it is there and ready, and no other hart
/// runs it.
pub open spec fn ready(s: SchedV, h: int, pid: usize) -> bool {
    &&& pid < s.procs.len()
    &&& s.procs[pid as int] matches Some(p) && (p.state is Runnable || p.state is Running)
    &&& forall|k: int| 0 <= k < MAX_HART && k != h ==> #[trigger] s.current[k] != pid
}

/// The process's group has not had more of the window of a hundred ticks so far
/// than its cap allows.
pub open spec fn in_quota(s: SchedV, pid: usize, now: u64) -> bool {
    let g = (s.procs[pid as int]->0).cg as int;
    let u = s.cpu[g];
    g >= MAX_CG || u.cap == 0 || u.win != now / 100 || u.win_use * 100 <= (u.cap - 1) * (now % 100 + 1)
}

pub proof fn lemma_ready(s: SchedV, h: int, pid: usize)
    ensures
        s.takeable(h, pid) == ready(s, h, pid),
{
}

pub proof fn lemma_quota(s: SchedV, pid: usize, now: u64)
    requires
        pid < s.procs.len(),
        s.procs[pid as int] is Some,
    ensures
        s.over_quota(s.group_of(pid), now) == !in_quota(s, pid, now),
{
}

/// A search that may set over-quota processes aside, of a queue that holds one
/// within its quota at `k`: it finds one no further than that, none before which
/// would have done, and leaves what is behind it in order at the front.
pub proof fn lemma_pop(s: SchedV, h: int, q: Seq<usize>, stash: Seq<usize>, now: u64, k: int) -> (j: int)
    requires
        0 <= k < q.len(),
        ready(s, h, q[k]),
        in_quota(s, q[k], now),
    ensures
        0 <= j <= k,
        ({
            let (rest, found) = s.pop_valid(h, q, stash, true, now);
            &&& found == Some(q[j])
            &&& ready(s, h, q[j])
            &&& in_quota(s, q[j], now) || stash.len() + j >= STASH
            &&& forall|i: int| 0 <= i < j ==> !(ready(s, h, #[trigger] q[i]) && in_quota(s, q[i], now))
            &&& rest.len() >= q.len() - j - 1
            &&& rest.take(q.len() - j - 1) == q.skip(j + 1)
        }),
    decreases q.len(),
{
    lemma_ready(s, h, q[0]);
    if ready(s, h, q[0]) {
        lemma_quota(s, q[0], now);
    }
    if !s.takeable(h, q[0]) || (stash.len() < STASH && s.over_quota(s.group_of(q[0]), now)) {
        assert(k > 0);
        assert(q.skip(1)[k - 1] == q[k]);
        let st = if !s.takeable(h, q[0]) {
            stash
        } else {
            stash.push(q[0])
        };
        let i = lemma_pop(s, h, q.skip(1), st, now, k - 1);
        assert(q.skip(1)[i] == q[i + 1]);
        assert(q.skip(1).skip(i + 1) =~= q.skip(i + 2));
        assert forall|x: int| 0 <= x < i + 1 implies !(ready(s, h, #[trigger] q[x]) && in_quota(s, q[x], now)) by {
            if x > 0 {
                assert(q.skip(1)[x - 1] == q[x]);
            }
        }
        i + 1
    } else {
        let rest = s.pop_valid(h, q, stash, true, now).0;
        assert(rest == q.skip(1) + stash);
        assert(rest.take(q.len() - 1) =~= q.skip(1));
        0
    }
}

/// Who can run once the hart's process is put back: those who could before.
pub proof fn lemma_same_ready(s: SchedV, h: int, pid: usize)
    requires
        s.wf(),
        0 <= h < MAX_HART,
    ensures
        s.requeue(h).wf(),
        ready(s.requeue(h), h, pid) == ready(s, h, pid),
        s.requeue(h).procs.len() == s.procs.len(),
{
    let t = s.requeue(h);
    let cur = s.current[h];
    assert forall|k: int| 0 <= k < MAX_HART && k != h implies #[trigger] t.current[k] == s.current[k] by {}
    if ready(s, h, pid) {
        assert(ready(t, h, pid));
    }
    if ready(t, h, pid) {
        assert forall|k: int| 0 <= k < MAX_HART && k != h implies #[trigger] s.current[k] != pid by {
            assert(t.current[k] == s.current[k]);
        }
        assert(ready(s, h, pid));
    }
}

/// The hart's queue once its process is put back.
proof fn lemma_requeued(s: SchedV, h: int, pid: usize)
    requires
        s.wf(),
        0 <= h < MAX_HART,
        pid != s.current[h],
    ensures
        ({
            let t = s.requeue(h);
            let q = s.queues[h];
            &&& t.wf()
            &&& t.queues[h].len() >= q.len()
            &&& t.queues[h].take(q.len() as int) == q
            &&& forall|v: int| 0 <= v < MAX_HART && v != h ==> #[trigger] t.queues[v] == s.queues[v]
            &&& t.queues[h] == q || t.queues[h] == q.push(s.current[h])
            &&& t.cpu == s.cpu
            &&& ready(t, h, pid) == ready(s, h, pid)
            &&& pid < s.procs.len() ==> t.procs[pid as int] == s.procs[pid as int]
            &&& t.procs.len() == s.procs.len()
        }),
{
    let t = s.requeue(h);
    let q = s.queues[h];
    lemma_same_ready(s, h, pid);
    assert(q.push(s.current[h]).take(q.len() as int) =~= q);
    assert(q.take(q.len() as int) =~= q);
    assert(s.proc(s.current[h] as int) is Some ==> s.current[h] < s.procs.len());
}

/// Where the hart's own queue holds a process that it can run within quota, one
/// of the queue is entered: the first such, unless as many over quota stand
/// before it as can be set aside; in any case none from behind it, so that the
/// process that ran waits for its turn. What stands behind moves up.
pub proof fn law_next_in_line_runs(s: SchedV, h: int, now: u64, k: int)
    requires
        s.wf(),
        0 <= h < MAX_HART,
        0 <= k < s.queues[h].len(),
        ready(s, h, s.queues[h][k]),
        in_quota(s, s.queues[h][k], now),
        forall|i: int| 0 <= i <= k ==> #[trigger] s.queues[h][i] != s.current[h],
        forall|i: int|
            0 <= i < k ==> !(ready(s, h, #[trigger] s.queues[h][i]) && in_quota(s, s.queues[h][i], now)),
    ensures
        ({
            let q = s.queues[h];
            let (t, n) = s.schedule(h, now);
            &&& n is Run
            &&& n->pid != s.current[h]
            &&& t.current[h] == n->pid
            &&& exists|j: int| 0 <= j <= k && #[trigger] q[j] == n->pid
            &&& n->root == (s.procs[n->pid as int]->0).root
            &&& n->tf_pa == (s.procs[n->pid as int]->0).tf_pa
            &&& k < STASH ==> n->pid == q[k]
        }),
{
    let q = s.queues[h];
    let pid = q[k];
    lemma_requeued(s, h, pid);
    let r = s.requeue(h);
    let rq = r.queues[h];
    assert(rq[k] == rq.take(q.len() as int)[k]);
    let j = lemma_pop(r, h, rq, Seq::empty(), now, k);
    assert(rq[j] == rq.take(q.len() as int)[j]);
    lemma_requeued(s, h, q[j]);
    assert((h + 0) % (MAX_HART as int) == h);
    assert(r.pick_pass(h, 0, true, now).1 == Some(q[j]));
    if k < STASH && j < k {
        assert(in_quota(r, q[j], now));
        assert(in_quota(s, q[j], now));
        assert(ready(s, h, q[j]));
    }
}

/// A process that waits at place `k` of a hart's queue and can run within quota
/// is entered at the hart's next scheduling point or stands further to the
/// front after it.
pub proof fn law_waiting_moves_up(s: SchedV, h: int, now: u64, k: int)
    requires
        s.wf(),
        0 <= h < MAX_HART,
        0 <= k < s.queues[h].len(),
        s.queues[h][k] != s.current[h],
        ready(s, h, s.queues[h][k]),
        in_quota(s, s.queues[h][k], now),
    ensures
        ({
            let pid = s.queues[h][k];
            let (t, n) = s.schedule(h, now);
            &&& t.wf()
            &&& t.cpu == s.cpu
            &&& t.current[h] == pid && n == (Next::Run {
                pid,
                root: (s.procs[pid as int]->0).root,
                tf_pa: (s.procs[pid as int]->0).tf_pa,
            }) || {
                &&& t.current[h] != pid
                &&& t.procs[pid as int] == s.procs[pid as int]
                &&& ready(t, h, pid)
                &&& exists|i: int| 0 <= i < k && i < t.queues[h].len() && #[trigger] t.queues[h][i] == pid
            }
        }),
{
    let q = s.queues[h];
    let pid = q[k];
    lemma_requeued(s, h, pid);
    let r = s.requeue(h);
    let rq = r.queues[h];
    assert(rq[k] == rq.take(q.len() as int)[k]);
    let j = lemma_pop(r, h, rq, Seq::empty(), now, k);
    assert((h + 0) % (MAX_HART as int) == h);
    let (rest, found) = r.pop_valid(h, rq, Seq::empty(), true, now);
    let (t, n) = s.schedule(h, now);
    assert(t == r.with_queue(h, rest).running(h, rq[j]));
    if rq[j] != pid {
        assert(j < k);
        assert(rest[k - j - 1] == rest.take(rq.len() - j - 1)[k - j - 1]);
        assert(t.queues[h][k - j - 1] == pid);
        assert(ready(r, h, rq[j]));
        assert(ready(t, h, pid));
    }
}

/// The state after scheduling points of one hart at these times.
pub open spec fn turns(s: SchedV, h: int, nows: Seq<u64>) -> SchedV
    decreases nows.len(),
{
    if nows.len() == 0 {
        s
    } else {
        turns(s.schedule(h, nows[0]).0, h, nows.skip(1))
    }
}

/// After one of these scheduling points the hart runs the process.
pub open spec fn gets_turn(s: SchedV, h: int, nows: Seq<u64>, pid: usize) -> bool {
    exists|i: int| 0 < i <= nows.len() && turns(s, h, #[trigger] nows.take(i)).current[h] == pid
}

/// Nobody starves: a process at place `k` of a hart's queue that can run within
/// quota is entered after at most `k + 1` scheduling points of that hart.
pub proof fn law_nobody_starves(s: SchedV, h: int, nows: Seq<u64>, k: int)
    requires
        s.wf(),
        0 <= h < MAX_HART,
        0 <= k < s.queues[h].len(),
        nows.len() == k + 1,
        s.queues[h][k] != s.current[h],
        ready(s, h, s.queues[h][k]),
        forall|i: int| 0 <= i < nows.len() ==> in_quota(s, s.queues[h][k], #[trigger] nows[i]),
    ensures
        gets_turn(s, h, nows, s.queues[h][k]),
    decreases k,
{
    let pid = s.queues[h][k];
    assert(in_quota(s, pid, nows[0]));
    law_waiting_moves_up(s, h, nows[0], k);
    let t = s.schedule(h, nows[0]).0;
    if t.current[h] == pid {
        let one = nows.take(1);
        reveal_with_fuel(turns, 2);
        assert(one.skip(1).len() == 0);
        assert(one[0] == nows[0]);
        assert(turns(s, h, one) == t);
    } else {
        let i = choose|i: int| 0 <= i < k && i < t.queues[h].len() && #[trigger] t.queues[h][i] == pid;
        let rest = nows.skip(1).take(i + 1);
        assert forall|x: int| 0 <= x < rest.len() implies in_quota(t, pid, #[trigger] rest[x]) by {
            assert(rest[x] == nows[x + 1]);
            assert(in_quota(s, pid, nows[x + 1]));
        }
        law_nobody_starves(t, h, rest, i);
        let m = choose|m: int| 0 < m <= rest.len() && turns(t, h, #[trigger] rest.take(m)).current[h] == pid;
        let all = nows.take(m + 1);
        assert(all.skip(1) =~= rest.take(m));
        assert(all[0] == nows[0]);
        assert(turns(s, h, all).current[h] == pid);
    }
}

// ---- no hart sleeps over work ----

/// A search that sets nothing aside finds something if anything can run.
proof fn lemma_pop_any(s: SchedV, h: int, q: Seq<usize>, stash: Seq<usize>, skip: bool, now: u64)
    ensures
        ({
            let (rest, found) = s.pop_valid(h, q, stash, skip, now);
            &&& found matches Some(p) ==> ready(s, h, p) && q.contains(p)
            &&& found is None ==> (forall|i: int|
                0 <= i < q.len() ==> !ready(s, h, #[trigger] q[i]) || (skip && rest.contains(q[i])))
            &&& forall|i: int| 0 <= i < stash.len() ==> rest.contains(#[trigger] stash[i])
            &&& found is None && !skip ==> rest == stash
        }),
    decreases q.len(),
{
    let (rest, found) = s.pop_valid(h, q, stash, skip, now);
    if q.len() == 0 {
        assert forall|i: int| 0 <= i < stash.len() implies rest.contains(#[trigger] stash[i]) by {
            assert(rest[i] == stash[i]);
        }
    } else {
        lemma_ready(s, h, q[0]);
        lemma_pop_any(s, h, q.skip(1), stash, skip, now);
        lemma_pop_any(s, h, q.skip(1), stash.push(q[0]), skip, now);
        if !s.takeable(h, q[0]) {
            if let Some(p) = found {
                let i = choose|i: int| 0 <= i < q.skip(1).len() && q.skip(1)[i] == p;
                assert(q[i + 1] == p);
            } else {
                assert forall|i: int| 0 <= i < q.len() implies !ready(s, h, #[trigger] q[i]) || (skip && rest.contains(
                    q[i],
                )) by {
                    if i > 0 {
                        assert(q.skip(1)[i - 1] == q[i]);
                    }
                }
            }
        } else if skip && stash.len() < STASH && s.over_quota(s.group_of(q[0]), now) {
            let st = stash.push(q[0]);
            if let Some(p) = found {
                let i = choose|i: int| 0 <= i < q.skip(1).len() && q.skip(1)[i] == p;
                assert(q[i + 1] == p);
            } else {
                assert(st[stash.len() as int] == q[0]);
                assert forall|i: int| 0 <= i < q.len() implies !ready(s, h, #[trigger] q[i]) || (skip && rest.contains(
                    q[i],
                )) by {
                    if i > 0 {
                        assert(q.skip(1)[i - 1] == q[i]);
                    }
                }
            }
            assert forall|i: int| 0 <= i < stash.len() implies rest.contains(#[trigger] stash[i]) by {
                assert(st[i] == stash[i]);
            }
        } else {
            assert forall|i: int| 0 <= i < stash.len() implies rest.contains(#[trigger] stash[i]) by {
                assert(rest[q.len() - 1 + i] == stash[i]);
            }
        }
    }
}

/// Nothing in the queues from the `off`-th on, seen from hart `h`, can run.
pub open spec fn nothing_ready(s: SchedV, h: int) -> bool {
    forall|v: int, i: int|
        0 <= v < MAX_HART && 0 <= i < s.queues[v].len() ==> !ready(s, h, #[trigger] s.queues[v][i])
}

proof fn lemma_pass(s: SchedV, h: int, off: int, skip: bool, now: u64)
    requires
        s.queues.len() == MAX_HART,
        0 <= h < MAX_HART,
        0 <= off <= MAX_HART,
    ensures
        ({
            let (t, r) = s.pick_pass(h, off, skip, now);
            &&& t.queues.len() == MAX_HART
            &&& t.procs == s.procs && t.current == s.current
            &&& r matches Some(p) ==> ready(s, h, p) && exists|v: int, i: int|
                0 <= v < MAX_HART && 0 <= i < s.queues[v].len() && #[trigger] s.queues[v][i] == p
            &&& r is None ==> forall|x: int, i: int|
                off <= x < MAX_HART && 0 <= i < s.queues[(h + x) % 4].len() ==> !ready(
                    s,
                    h,
                    #[trigger] s.queues[(h + x) % 4][i],
                ) || (skip && t.queues[(h + x) % 4].contains(s.queues[(h + x) % 4][i]))
            &&& r is None ==> forall|x: int| 0 <= x < off ==> #[trigger] t.queues[(h + x) % 4] == s.queues[(h + x) % 4]
        }),
    decreases MAX_HART - off,
{
    if off < MAX_HART {
        let v = (h + off) % 4;
        lemma_pop_any(s, h, s.queues[v], Seq::empty(), skip, now);
        let (q, r) = s.pop_valid(h, s.queues[v], Seq::empty(), skip, now);
        let u = s.with_queue(v, q);
        lemma_pass(u, h, off + 1, skip, now);
        let (t, f) = s.pick_pass(h, off, skip, now);
        if let Some(p) = r {
            let i = choose|i: int| 0 <= i < s.queues[v].len() && s.queues[v][i] == p;
            assert(s.queues[v][i] == p);
        } else {
            if let Some(p) = f {
                let (w, i) = choose|w: int, i: int|
                    0 <= w < MAX_HART && 0 <= i < u.queues[w].len() && #[trigger] u.queues[w][i] == p;
                assert(ready(u, h, p));
                if w == v {
                    lemma_rest(s, h, s.queues[v], Seq::empty(), skip, now, i);
                    let j = choose|j: int| 0 <= j < s.queues[v].len() && s.queues[v][j] == p;
                    assert(s.queues[v][j] == p);
                } else {
                    assert(s.queues[w][i] == p);
                }
            } else {
                assert forall|x: int, i: int|
                    off <= x < MAX_HART && 0 <= i < s.queues[(h + x) % 4].len() implies !ready(
                    s,
                    h,
                    #[trigger] s.queues[(h + x) % 4][i],
                ) || (skip && t.queues[(h + x) % 4].contains(s.queues[(h + x) % 4][i])) by {
                    if x == off {
                        assert(t.queues[(h + off) % 4] == u.queues[(h + off) % 4]);
                    } else {
                        assert((h + x) % 4 != v);
                        assert(u.queues[(h + x) % 4] == s.queues[(h + x) % 4]);
                        assert(ready(u, h, s.queues[(h + x) % 4][i]) == ready(s, h, s.queues[(h + x) % 4][i]));
                    }
                }
                assert forall|x: int| 0 <= x < off implies #[trigger] t.queues[(h + x) % 4] == s.queues[(h + x)
                    % 4] by {
                    assert((h + x) % 4 != v);
                    assert(t.queues[(h + x) % 4] == u.queues[(h + x) % 4]);
                }
            }
        }
    }
}

/// What a search leaves was there before.
proof fn lemma_rest(s: SchedV, h: int, q: Seq<usize>, stash: Seq<usize>, skip: bool, now: u64, i: int)
    requires
        0 <= i < s.pop_valid(h, q, stash, skip, now).0.len(),
    ensures
        q.contains(s.pop_valid(h, q, stash, skip, now).0[i]) || stash.contains(
            s.pop_valid(h, q, stash, skip, now).0[i],
        ),
    decreases q.len(),
{
    let rest = s.pop_valid(h, q, stash, skip, now).0;
    if q.len() == 0 {
        assert(stash[i] == rest[i]);
    } else if !s.takeable(h, q[0]) {
        lemma_rest(s, h, q.skip(1), stash, skip, now, i);
        if q.skip(1).contains(rest[i]) {
            let j = choose|j: int| 0 <= j < q.skip(1).len() && q.skip(1)[j] == rest[i];
            assert(q[j + 1] == rest[i]);
        }
    } else if skip && stash.len() < STASH && s.over_quota(s.group_of(q[0]), now) {
        let st = stash.push(q[0]);
        lemma_rest(s, h, q.skip(1), st, skip, now, i);
        if q.skip(1).contains(rest[i]) {
            let j = choose|j: int| 0 <= j < q.skip(1).len() && q.skip(1)[j] == rest[i];
            assert(q[j + 1] == rest[i]);
        } else {
            let j = choose|j: int| 0 <= j < st.len() && st[j] == rest[i];
            if j < stash.len() {
                assert(stash[j] == rest[i]);
            } else {
                assert(q[0] == rest[i]);
            }
        }
    } else {
        if i < q.len() - 1 {
            assert(rest[i] == q[i + 1]);
        } else {
            assert(rest[i] == stash[i - (q.len() - 1)]);
        }
    }
}

proof fn lemma_all_ready(s: SchedV, h: int)
    requires
        s.wf(),
        0 <= h < MAX_HART,
    ensures
        nothing_ready(s.requeue(h), h) <==> nothing_ready(s, h) && !ready(s, h, s.current[h]),
        s.requeue(h).wf(),
{
    let r = s.requeue(h);
    let cur = s.current[h];
    let q = s.queues[h];
    lemma_same_ready(s, h, cur);
    if nothing_ready(r, h) {
        assert forall|v: int, i: int| 0 <= v < MAX_HART && 0 <= i < s.queues[v].len() implies !ready(
            s,
            h,
            #[trigger] s.queues[v][i],
        ) by {
            lemma_same_ready(s, h, s.queues[v][i]);
            assert(r.queues[v][i] == s.queues[v][i]);
        }
        if ready(s, h, cur) {
            assert(r.queues[h] == q.push(cur));
            assert(r.queues[h][q.len() as int] == cur);
        }
    }
    if nothing_ready(s, h) && !ready(s, h, cur) {
        assert forall|v: int, i: int| 0 <= v < MAX_HART && 0 <= i < r.queues[v].len() implies !ready(
            r,
            h,
            #[trigger] r.queues[v][i],
        ) by {
            lemma_same_ready(s, h, r.queues[v][i]);
            if i < s.queues[v].len() {
                assert(r.queues[v][i] == s.queues[v][i]);
            } else {
                assert(r.queues[v][i] == cur);
            }
        }
    }
}

/// A hart sleeps after a scheduling point just where nothing in any queue can
/// run on it, nor the process it ran; else it runs something that can, in that
/// process's own space, and nobody else runs it.
pub proof fn law_no_hart_sleeps_over_work(s: SchedV, h: int, now: u64)
    requires
        s.wf(),
        0 <= h < MAX_HART,
    ensures
        ({
            let (t, n) = s.schedule(h, now);
            &&& n is Idle <==> nothing_ready(s, h) && !ready(s, h, s.current[h])
            &&& n is Idle ==> t.idle[h] && t.current[h] == 0
            &&& n matches Next::Run { pid, root, tf_pa } ==> {
                &&& ready(s, h, pid)
                &&& t.current[h] == pid && !t.idle[h]
                &&& t.procs[pid as int] matches Some(p) && p.state is Running && root == p.root && tf_pa == p.tf_pa
                &&& forall|k: int| 0 <= k < MAX_HART && k != h ==> #[trigger] t.current[k] != pid && t.current[k]
                    == s.current[k]
            }
        }),
{
    let r = s.requeue(h);
    lemma_pass(r, h, 0, true, now);
    let (a, x) = r.pick_pass(h, 0, true, now);
    lemma_pass(a, h, 0, false, now);
    let (b, y) = a.pick_pass(h, 0, false, now);
    assert(s.proc(s.current[h] as int) is Some ==> s.current[h] < s.procs.len());
    if x is None {
        if y is None {
            assert forall|v: int, i: int| 0 <= v < MAX_HART && 0 <= i < r.queues[v].len() implies !ready(
                r,
                h,
                #[trigger] r.queues[v][i],
            ) by {
                let o = (v - h) % 4;
                assert((h + o) % 4 == v);
                assert(r.queues[(h + o) % 4][i] == r.queues[v][i]);
                if ready(r, h, r.queues[v][i]) {
                    let p = r.queues[v][i];
                    assert(a.queues[v].contains(p));
                    let j = choose|j: int| 0 <= j < a.queues[v].len() && a.queues[v][j] == p;
                    assert(!ready(a, h, a.queues[(h + o) % 4][j]));
                    assert(ready(a, h, p));
                }
            }
        } else {
            let p = y->0;
            assert(ready(a, h, p));
            assert(ready(r, h, p));
            lemma_held(r, h, 0, true, now, p);
        }
    }
    lemma_all_ready(s, h);
    if let Next::Run { pid, .. } = s.schedule(h, now).1 {
        assert(ready(r, h, pid));
        lemma_same_ready(s, h, pid);
    }
    sched::lemma_pick_frame(r, h, now);
}

/// What a pass leaves in the queues was there before.
proof fn lemma_held(s: SchedV, h: int, off: int, skip: bool, now: u64, p: usize)
    requires
        s.queues.len() == MAX_HART,
        0 <= h < MAX_HART,
        0 <= off <= MAX_HART,
        exists|v: int, i: int|
            0 <= v < MAX_HART && 0 <= i < s.pick_pass(h, off, skip, now).0.queues[v].len() && #[trigger] s.pick_pass(
                h,
                off,
                skip,
                now,
            ).0.queues[v][i] == p,
    ensures
        exists|v: int, i: int| 0 <= v < MAX_HART && 0 <= i < s.queues[v].len() && #[trigger] s.queues[v][i] == p,
    decreases MAX_HART - off,
{
    if off < MAX_HART {
        let w = (h + off) % 4;
        let (q, r) = s.pop_valid(h, s.queues[w], Seq::empty(), skip, now);
        let u = s.with_queue(w, q);
        let t = s.pick_pass(h, off, skip, now).0;
        let (v, i) = choose|v: int, i: int|
            0 <= v < MAX_HART && 0 <= i < t.queues[v].len() && #[trigger] t.queues[v][i] == p;
        if r is None {
            assert(t == u.pick_pass(h, off + 1, skip, now).0);
            lemma_held(u, h, off + 1, skip, now, p);
        } else {
            assert(t.queues == u.queues);
            assert(u.queues[v][i] == p);
        }
        let (x, j) = choose|x: int, j: int|
            0 <= x < MAX_HART && 0 <= j < u.queues[x].len() && #[trigger] u.queues[x][j] == p;
        if x == w {
            lemma_rest(s, h, s.queues[w], Seq::empty(), skip, now, j);
            let z = choose|z: int| 0 <= z < s.queues[w].len() && s.queues[w][z] == p;
            assert(s.queues[w][z] == p);
        } else {
            assert(s.queues[x][j] == p);
        }
    }
}

/// A process that was running and is not picked again is ready, and waits in
/// its hart's queue.
pub proof fn law_preempted_process_waits(s: SchedV, h: int, now: u64, k: int)
    requires
        s.wf(),
        0 <= h < MAX_HART,
        s.current[h] < s.procs.len(),
        s.procs[s.current[h] as int] matches Some(p) && p.state is Running,
        0 <= k < s.queues[h].len(),
        ready(s, h, s.queues[h][k]),
        in_quota(s, s.queues[h][k], now),
        forall|i: int| 0 <= i <= k ==> #[trigger] s.queues[h][i] != s.current[h],
    ensures
        ({
            let cur = s.current[h];
            let t = s.schedule(h, now).0;
            &&& t.procs[cur as int] == Some(ProcV { state: State::Runnable, ..s.procs[cur as int]->0 })
            &&& exists|i: int| 0 <= i < t.queues[h].len() && #[trigger] t.queues[h][i] == cur
        }),
{
    let q = s.queues[h];
    let cur = s.current[h];
    lemma_requeued(s, h, q[k]);
    let r = s.requeue(h);
    let rq = r.queues[h];
    assert(rq == q.push(cur));
    assert(rq[k] == q[k]);
    let j = lemma_pop(r, h, rq, Seq::empty(), now, k);
    assert(rq[j] == q[j]);
    assert((h + 0) % (MAX_HART as int) == h);
    let rest = r.pop_valid(h, rq, Seq::empty(), true, now).0;
    let t = s.schedule(h, now).0;
    assert(t == r.with_queue(h, rest).running(h, q[j]));
    let at = q.len() - j - 1;
    assert(rest[at] == rest.take(rq.len() - j - 1)[at]);
    assert(rq.skip(j + 1)[at] == cur);
    assert(t.queues[h][at] == cur);
}

} // verus!
