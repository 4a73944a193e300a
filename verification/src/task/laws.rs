//! What holds of the scheduler as a whole: every runnable process is in
//! exactly one place, a queue or a hart.
use crate::task::life;
use crate::task::sched;
use crate::task::state::{ProcV, SchedV, State, BLOCK_WAIT, MAX_HART};
use crate::task::wait;
use vstd::prelude::*;

verus! {

// ---- counting ----

/// How often `x` occurs in a queue.
pub open spec fn occ(q: Seq<usize>, x: usize) -> nat
    decreases q.len(),
{
    if q.len() == 0 {
        0
    } else {
        occ(q.drop_last(), x) + if q.last() == x {
            1nat
        } else {
            0
        }
    }
}

/// How often `x` is queued at all.
pub open spec fn total(s: SchedV, x: usize) -> nat {
    occ(s.queues[0], x) + occ(s.queues[1], x) + occ(s.queues[2], x) + occ(s.queues[3], x)
}

proof fn lemma_occ_push(q: Seq<usize>, y: usize, x: usize)
    ensures
        occ(q.push(y), x) == occ(q, x) + if y == x {
            1nat
        } else {
            0
        },
{
    assert(q.push(y).drop_last() =~= q);
}

proof fn lemma_occ_add(a: Seq<usize>, b: Seq<usize>, x: usize)
    ensures
        occ(a + b, x) == occ(a, x) + occ(b, x),
    decreases b.len(),
{
    if b.len() == 0 {
        assert(a + b =~= a);
    } else {
        assert((a + b).drop_last() =~= a + b.drop_last());
        lemma_occ_add(a, b.drop_last(), x);
    }
}

proof fn lemma_occ_first(q: Seq<usize>, x: usize)
    requires
        q.len() > 0,
    ensures
        occ(q, x) == occ(q.skip(1), x) + if q[0] == x {
            1nat
        } else {
            0
        },
{
    let one = seq![q[0]];
    assert(q =~= one + q.skip(1));
    lemma_occ_add(one, q.skip(1), x);
    assert(one.drop_last() =~= Seq::<usize>::empty());
    assert(occ(one.drop_last(), x) == 0);
}

proof fn lemma_occ_without(q: Seq<usize>, c: usize, x: usize)
    ensures
        occ(wait::without(q, c), x) == if x == c {
            0
        } else {
            occ(q, x)
        },
    decreases q.len(),
{
    if q.len() > 0 {
        lemma_occ_without(q.drop_last(), c, x);
        if q.last() != c {
            lemma_occ_push(wait::without(q.drop_last(), c), q.last(), x);
        }
    }
}

/// Changing one queue changes the count by what changed there.
proof fn lemma_total_queue(s: SchedV, v: int, q: Seq<usize>, x: usize)
    requires
        s.queues.len() == MAX_HART,
        0 <= v < MAX_HART,
    ensures
        total(s.with_queue(v, q), x) + occ(s.queues[v], x) == total(s, x) + occ(q, x),
        occ(s.queues[v], x) <= total(s, x),
{
}

// ---- the invariant ----

/// Every process is in exactly one place. `busy` says which processes harts
/// hold. No process is queued twice; what is queued can run and is held by no
/// hart; what can run is queued or held; what runs is held.
pub open spec fn once(s: SchedV, busy: spec_fn(usize) -> bool) -> bool {
    &&& forall|x: usize| #[trigger] total(s, x) <= 1
    &&& forall|x: usize| #[trigger]
        total(s, x) > 0 ==> !busy(x) && (s.proc(x as int) matches Some(p) && p.state is Runnable)
    &&& forall|x: usize|
        (#[trigger] s.proc(x as int) matches Some(p) && p.state is Runnable) ==> total(s, x) == 1 || busy(x)
    &&& forall|x: usize| (#[trigger] s.proc(x as int) matches Some(p) && p.state is Running) ==> busy(x)
}

pub open spec fn on_hart(s: SchedV) -> spec_fn(usize) -> bool {
    |x: usize| s.is_current(x)
}

pub open spec fn on_other(s: SchedV, h: int) -> spec_fn(usize) -> bool {
    |x: usize| s.owned_elsewhere(h, x)
}

/// The scheduler's state is in order: every process in exactly one place, no
/// two harts with the same one, and nobody with the id that means none.
pub open spec fn in_order(s: SchedV) -> bool {
    &&& s.wf()
    &&& once(s, on_hart(s))
    &&& forall|h: int, k: int|
        0 <= h < MAX_HART && 0 <= k < MAX_HART && h != k && #[trigger] s.current[h] == #[trigger] s.current[k]
            ==> s.current[h] == 0
    &&& s.proc(0) is None
    &&& s.procs.len() < usize::MAX
}

// ---- picking ----

/// What is left and what was found are what was there.
proof fn lemma_pop_counts(s: SchedV, h: int, q: Seq<usize>, stash: Seq<usize>, skip: bool, now: u64, x: usize)
    requires
        forall|i: int| 0 <= i < q.len() ==> s.takeable(h, #[trigger] q[i]),
    ensures
        ({
            let (l, r) = s.pop_valid(h, q, stash, skip, now);
            occ(l, x) + (if r == Some(x) {
                1nat
            } else {
                0
            }) == occ(q, x) + occ(stash, x)
        }),
    decreases q.len(),
{
    if q.len() > 0 {
        lemma_occ_first(q, x);
        let rest = q.skip(1);
        assert forall|i: int| 0 <= i < rest.len() implies s.takeable(h, #[trigger] rest[i]) by {
            assert(rest[i] == q[i + 1]);
        }
        assert(s.takeable(h, q[0]));
        if skip && stash.len() < sched::STASH && s.over_quota(s.group_of(q[0]), now) {
            lemma_pop_counts(s, h, rest, stash.push(q[0]), skip, now, x);
            lemma_occ_push(stash, q[0], x);
        } else {
            lemma_occ_add(rest, stash, x);
        }
    }
}

/// What is queued can be taken.
pub open spec fn all_takeable(s: SchedV, h: int) -> bool {
    forall|x: usize| #[trigger] total(s, x) > 0 ==> s.takeable(h, x)
}

proof fn lemma_queued(q: Seq<usize>, i: int)
    requires
        0 <= i < q.len(),
    ensures
        occ(q, q[i]) > 0,
    decreases q.len(),
{
    if i < q.len() - 1 {
        lemma_queued(q.drop_last(), i);
        assert(q.drop_last()[i] == q[i]);
    }
}

proof fn lemma_pass_counts(s: SchedV, h: int, off: int, skip: bool, now: u64, x: usize)
    requires
        s.queues.len() == MAX_HART,
        0 <= h,
        0 <= off,
        all_takeable(s, h),
    ensures
        ({
            let (t, r) = s.pick_pass(h, off, skip, now);
            total(t, x) + (if r == Some(x) {
                1nat
            } else {
                0
            }) == total(s, x)
        }),
    decreases MAX_HART - off,
{
    if off < MAX_HART {
        let v = (h + off) % (MAX_HART as int);
        let q = s.queues[v];
        assert forall|i: int| 0 <= i < q.len() implies s.takeable(h, #[trigger] q[i]) by {
            lemma_queued(q, i);
            assert(total(s, q[i]) > 0);
        }
        let (l, r) = s.pop_valid(h, q, Seq::empty(), skip, now);
        let t = s.with_queue(v, l);
        assert forall|y: usize| true implies #[trigger] total(t, y) + (if r == Some(y) {
            1nat
        } else {
            0
        }) == total(s, y) by {
            lemma_pop_counts(s, h, q, Seq::empty(), skip, now, y);
            lemma_total_queue(s, v, l, y);
            assert(occ(Seq::<usize>::empty(), y) == 0);
        }
        assert(total(t, x) + (if r == Some(x) {
            1nat
        } else {
            0
        }) == total(s, x));
        if r is Some {
            assert(total(SchedV { steals: t.steals.wrapping_add(1), ..t }, x) == total(t, x));
        } else {
            assert forall|y: usize| #[trigger] total(t, y) > 0 implies t.takeable(h, y) by {
                sched::lemma_takeable_same(s, t, h, y);
            }
            lemma_pass_counts(t, h, off + 1, skip, now, x);
        }
    }
}

proof fn lemma_pick_counts(s: SchedV, h: int, now: u64, x: usize)
    requires
        s.queues.len() == MAX_HART,
        0 <= h,
        all_takeable(s, h),
    ensures
        ({
            let (t, r) = s.pick(h, now);
            total(t, x) + (if r == Some(x) {
                1nat
            } else {
                0
            }) == total(s, x)
        }),
{
    lemma_pass_counts(s, h, 0, true, now, x);
    let (t, r) = s.pick_pass(h, 0, true, now);
    if r is None {
        sched::lemma_pass_frame(s, h, 0, true, now);
        assert forall|y: usize| #[trigger] total(t, y) > 0 implies t.takeable(h, y) by {
            lemma_pass_counts(s, h, 0, true, now, y);
            sched::lemma_takeable_same(s, t, h, y);
        }
        lemma_pass_counts(t, h, 0, false, now, x);
    }
}

/// The hart's own process, put back, is in one place.
proof fn lemma_requeued(s: SchedV, h: int)
    requires
        in_order(s),
        0 <= h < MAX_HART,
    ensures
        ({
            let t = s.requeue(h);
            &&& once(t, on_other(t, h))
            &&& t.queues.len() == MAX_HART
            &&& t.current.len() == MAX_HART
            &&& forall|k: int| 0 <= k < MAX_HART && k != h ==> #[trigger] t.current[k] == s.current[k]
            &&& t.proc(0) is None
            &&& t.procs.len() == s.procs.len()
        }),
{
    let t = s.requeue(h);
    let cur = s.current[h];
    assert(s.is_current(cur)) by {
        assert(s.current[h] == cur);
    }
    let pushes = s.proc(cur as int) matches Some(p) && (p.state is Running || p.state is Runnable);
    assert forall|x: usize| #[trigger] total(t, x) == total(s, x) + (if pushes && x == cur {
        1nat
    } else {
        0
    }) by {
        lemma_total_queue(s, h, s.queues[h].push(cur), x);
        lemma_occ_push(s.queues[h], cur, x);
    }
    assert forall|x: usize| x != cur implies #[trigger] s.is_current(x) == t.owned_elsewhere(h, x) by {
        if s.is_current(x) {
            let k = choose|k: int| 0 <= k < MAX_HART && #[trigger] s.current[k] == x;
            assert(k != h);
            assert(t.current[k] == x);
        }
        if t.owned_elsewhere(h, x) {
            let k = choose|k: int| 0 <= k < MAX_HART && k != h && #[trigger] t.current[k] == x;
            assert(s.current[k] == x);
        }
    }
    if cur != 0 {
        assert(!t.owned_elsewhere(h, cur)) by {
            if t.owned_elsewhere(h, cur) {
                let k = choose|k: int| 0 <= k < MAX_HART && k != h && #[trigger] t.current[k] == cur;
                assert(s.current[k] == s.current[h]);
            }
        }
    }
    assert(total(s, cur) == 0);
    assert forall|x: usize| #[trigger] total(t, x) <= 1 by {
        assert(total(s, x) <= 1);
    }
    assert forall|x: usize| #[trigger] total(t, x) > 0 implies !on_other(t, h)(x) && (t.proc(x as int) matches Some(p)
        && p.state is Runnable) by {
        if x != cur {
            assert(total(s, x) > 0);
            assert(!on_hart(s)(x));
            assert(!s.is_current(x));
        }
    }
    assert forall|x: usize|
        (#[trigger] t.proc(x as int) matches Some(p) && p.state is Runnable) implies total(t, x) == 1
        || on_other(t, h)(x) by {
        if x != cur {
            assert(s.proc(x as int) == t.proc(x as int));
            assert(total(s, x) == 1 || on_hart(s)(x));
            assert(total(t, x) == total(s, x));
            assert(s.is_current(x) == t.owned_elsewhere(h, x));
        } else {
            assert(total(t, cur) == 1);
        }
    }
    assert forall|x: usize| (#[trigger] t.proc(x as int) matches Some(p) && p.state is Running) implies on_other(
        t,
        h,
    )(x) by {
        if x != cur {
            assert(s.proc(x as int) == t.proc(x as int));
            assert(on_hart(s)(x));
            assert(s.is_current(x) == t.owned_elsewhere(h, x));
        }
    }
}

/// A hart that took a process off the queues holds it.
proof fn lemma_taken(s: SchedV, t: SchedV, h: int, pid: usize)
    requires
        s.queues.len() == MAX_HART,
        s.current.len() == MAX_HART,
        0 <= h < MAX_HART,
        once(s, on_other(s, h)),
        t == (SchedV { queues: t.queues, steals: t.steals, ..s }),
        t.queues.len() == MAX_HART,
        total(s, pid) > 0,
        forall|x: usize| #[trigger]
            total(t, x) + (if x == pid {
                1nat
            } else {
                0
            }) == total(s, x),
    ensures
        once(t.running(h, pid), on_hart(t.running(h, pid))),
{
    let u = t.running(h, pid);
    assert(s.proc(pid as int) is Some);
    assert forall|x: usize| #[trigger] total(u, x) == total(t, x) by {}
    assert forall|x: usize| #[trigger] u.is_current(x) == (s.owned_elsewhere(h, x) || x == pid) by {
        if u.is_current(x) {
            let k = choose|k: int| 0 <= k < MAX_HART && #[trigger] u.current[k] == x;
            if k != h {
                assert(s.current[k] == x);
            }
        }
        if x == pid {
            assert(u.current[h] == pid);
        }
        if s.owned_elsewhere(h, x) {
            let k = choose|k: int| 0 <= k < MAX_HART && k != h && #[trigger] s.current[k] == x;
            assert(u.current[k] == x);
        }
    }
    assert forall|x: usize| #[trigger] total(u, x) <= 1 by {
        assert(total(t, x) <= total(s, x));
        assert(total(s, x) <= 1);
    }
    assert forall|x: usize| #[trigger] total(u, x) > 0 implies !on_hart(u)(x) && (u.proc(x as int) matches Some(p)
        && p.state is Runnable) by {
        assert(total(t, x) > 0);
        assert(total(s, x) <= 1);
        assert(x != pid);
        assert(total(s, x) > 0);
        assert(!on_other(s, h)(x));
    }
    assert forall|x: usize|
        (#[trigger] u.proc(x as int) matches Some(p) && p.state is Runnable) implies total(u, x) == 1
        || on_hart(u)(x) by {
        if x != pid {
            assert(s.proc(x as int) == u.proc(x as int));
            assert(total(s, x) == 1 || on_other(s, h)(x));
            assert(total(t, x) == total(s, x));
        }
    }
    assert forall|x: usize| (#[trigger] u.proc(x as int) matches Some(p) && p.state is Running) implies on_hart(
        u,
    )(x) by {
        if x != pid {
            assert(s.proc(x as int) == u.proc(x as int));
            assert(on_other(s, h)(x));
        } else {
            assert(u.is_current(pid));
        }
    }
}

/// A hart that found nothing holds nothing.
proof fn lemma_none_taken(s: SchedV, t: SchedV, h: int)
    requires
        s.queues.len() == MAX_HART,
        s.current.len() == MAX_HART,
        0 <= h < MAX_HART,
        once(s, on_other(s, h)),
        s.proc(0) is None,
        t == (SchedV { queues: t.queues, steals: t.steals, ..s }),
        t.queues.len() == MAX_HART,
        forall|x: usize| #[trigger] total(t, x) == total(s, x),
    ensures
        once(t.idling(h), on_hart(t.idling(h))),
{
    let u = t.idling(h);
    assert forall|x: usize| #[trigger] total(u, x) == total(t, x) by {}
    assert forall|x: usize| #[trigger] u.is_current(x) == (s.owned_elsewhere(h, x) || x == 0) by {
        if u.is_current(x) {
            let k = choose|k: int| 0 <= k < MAX_HART && #[trigger] u.current[k] == x;
            if k != h {
                assert(s.current[k] == x);
            }
        }
        assert(u.current[h] == 0);
        if s.owned_elsewhere(h, x) {
            let k = choose|k: int| 0 <= k < MAX_HART && k != h && #[trigger] s.current[k] == x;
            assert(u.current[k] == x);
        }
    }
    assert forall|x: usize| #[trigger] total(u, x) <= 1 by {
        assert(total(t, x) == total(s, x));
    }
    assert forall|x: usize| #[trigger] total(u, x) > 0 implies !on_hart(u)(x) && (u.proc(x as int) matches Some(p)
        && p.state is Runnable) by {
        assert(total(t, x) == total(s, x));
        assert(!on_other(s, h)(x));
        assert(s.proc(x as int) is Some);
    }
    assert forall|x: usize|
        (#[trigger] u.proc(x as int) matches Some(p) && p.state is Runnable) implies total(u, x) == 1
        || on_hart(u)(x) by {
        assert(s.proc(x as int) == u.proc(x as int));
        assert(total(s, x) == 1 || on_other(s, h)(x));
        assert(total(t, x) == total(s, x));
    }
    assert forall|x: usize| (#[trigger] u.proc(x as int) matches Some(p) && p.state is Running) implies on_hart(
        u,
    )(x) by {
        assert(s.proc(x as int) == u.proc(x as int));
        assert(on_other(s, h)(x));
    }
}

/// What is queued in good order can be taken by a hart.
proof fn lemma_once_takeable(s: SchedV, h: int)
    requires
        once(s, on_other(s, h)),
    ensures
        all_takeable(s, h),
{
    assert forall|x: usize| #[trigger] total(s, x) > 0 implies s.takeable(h, x) by {
        assert(!on_other(s, h)(x));
    }
}

/// Switching at the end of a trap keeps every process in exactly one place.
pub proof fn law_schedule_keeps_order(s: SchedV, h: int, now: u64)
    requires
        in_order(s),
        0 <= h < MAX_HART,
    ensures
        in_order(s.schedule(h, now).0),
{
    let a = s.requeue(h);
    lemma_requeued(s, h);
    lemma_once_takeable(a, h);
    sched::lemma_pick_frame(a, h, now);
    let (t, r) = a.pick(h, now);
    assert forall|x: usize| #[trigger] total(t, x) + (if r == Some(x) {
        1nat
    } else {
        0
    }) == total(a, x) by {
        lemma_pick_counts(a, h, now, x);
    }
    match r {
        Some(pid) => {
            assert(total(t, pid) + 1 == total(a, pid));
            lemma_taken(a, t, h, pid);
            let u = t.running(h, pid);
            assert(!on_other(a, h)(pid));
            assert forall|j: int, k: int|
                0 <= j < MAX_HART && 0 <= k < MAX_HART && j != k && #[trigger] u.current[j]
                    == #[trigger] u.current[k] implies u.current[j] == 0 by {
                if j == h {
                    assert(a.current[k] == pid);
                } else if k == h {
                    assert(a.current[j] == pid);
                } else {
                    assert(s.current[j] == s.current[k]);
                }
            }
            assert(pid != 0);
        },
        None => {
            lemma_none_taken(a, t, h);
            let u = t.idling(h);
            assert forall|j: int, k: int|
                0 <= j < MAX_HART && 0 <= k < MAX_HART && j != k && #[trigger] u.current[j]
                    == #[trigger] u.current[k] implies u.current[j] == 0 by {
                if j != h && k != h {
                    assert(s.current[j] == s.current[k]);
                }
            }
        },
    }
}

/// Waking a process keeps every process in exactly one place.
pub proof fn law_wake_keeps_order(s: SchedV, pid: int, hq: int)
    requires
        in_order(s),
        0 <= hq < MAX_HART,
    ensures
        in_order(s.wake(pid, hq)),
{
    let u = s.wake(pid, hq);
    if let Some(p) = s.proc(pid) {
        if p.state is Blocked {
            let t = s.with_proc(pid, ProcV { state: State::Runnable, blocked_on: 0, ..p });
            let w = pid as usize;
            assert(s.proc(w as int) is Some);
            assert(total(s, w) == 0);
            assert forall|x: usize| #[trigger] u.is_current(x) == s.is_current(x) by {
                sched::lemma_current_same(s, u, x);
            }
            sched::lemma_current_same(s, t, w);
            assert forall|x: usize| #[trigger] total(u, x) == total(s, x) + (if x == w && !s.is_current(w) {
                1nat
            } else {
                0
            }) by {
                lemma_total_queue(t, hq, t.queues[hq].push(w), x);
                lemma_occ_push(t.queues[hq], w, x);
                assert(total(t, x) == total(s, x));
            }
            assert forall|x: usize| #[trigger] total(u, x) <= 1 by {
                assert(total(s, x) <= 1);
            }
            assert forall|x: usize| #[trigger] total(u, x) > 0 implies !on_hart(u)(x) && (u.proc(
                x as int,
            ) matches Some(p) && p.state is Runnable) by {
                if x != w {
                    assert(total(s, x) > 0);
                    assert(!on_hart(s)(x));
                    assert(s.proc(x as int) is Some);
                }
            }
            assert forall|x: usize|
                (#[trigger] u.proc(x as int) matches Some(p) && p.state is Runnable) implies total(u, x)
                == 1 || on_hart(u)(x) by {
                if x != w {
                    assert(s.proc(x as int) == u.proc(x as int));
                    assert(total(s, x) == 1 || on_hart(s)(x));
                } else {
                    assert(total(u, w) == total(s, w) + (if !s.is_current(w) {
                        1nat
                    } else {
                        0
                    }));
                }
            }
            assert forall|x: usize|
                (#[trigger] u.proc(x as int) matches Some(p) && p.state is Running) implies on_hart(u)(
                x,
            ) by {
                assert(x != w);
                assert(s.proc(x as int) == u.proc(x as int));
                assert(on_hart(s)(x));
            }
            assert(in_order(u));
        }
    }
}

/// Only what does not place processes changed.
proof fn lemma_same_places(s: SchedV, u: SchedV)
    requires
        in_order(s),
        u.wf(),
        u.queues == s.queues,
        u.current == s.current,
        u.procs.len() == s.procs.len(),
        forall|i: int|
            0 <= i < s.procs.len() ==> match (#[trigger] s.procs[i], u.procs[i]) {
                (Some(p), Some(q)) => p.state == q.state,
                (None, None) => true,
                _ => false,
            },
    ensures
        in_order(u),
{
    assert forall|x: usize| #[trigger] u.is_current(x) == s.is_current(x) by {
        sched::lemma_current_same(s, u, x);
    }
    assert forall|x: usize| #[trigger] total(u, x) == total(s, x) by {}
    assert forall|x: usize| #[trigger] total(u, x) > 0 implies !on_hart(u)(x) && (u.proc(x as int) matches Some(p)
        && p.state is Runnable) by {
        assert(total(s, x) > 0);
        assert(!on_hart(s)(x));
        assert(s.procs[x as int] is Some);
    }
    assert forall|x: usize|
        (#[trigger] u.proc(x as int) matches Some(p) && p.state is Runnable) implies total(u, x) == 1
        || on_hart(u)(x) by {
        assert(s.procs[x as int] is Some);
        assert(s.proc(x as int) is Some);
        assert(total(s, x) == 1 || on_hart(s)(x));
    }
    assert forall|x: usize| (#[trigger] u.proc(x as int) matches Some(p) && p.state is Running) implies on_hart(
        u,
    )(x) by {
        assert(s.procs[x as int] is Some);
        assert(s.proc(x as int) is Some);
        assert(on_hart(s)(x));
    }
    if s.procs.len() > 0 {
        assert(s.procs[0] is None);
    }
}

/// Waking all sleepers of a kind keeps every process in exactly one place.
pub proof fn law_wake_all_keeps_order(s: SchedV, upto: int, reason: u8, hq: int, now: u64)
    requires
        in_order(s),
        0 <= hq < MAX_HART,
    ensures
        in_order(s.wake_all(upto, reason, hq, now).0),
    decreases upto,
{
    if upto > 0 {
        law_wake_all_keeps_order(s, upto - 1, reason, hq, now);
        law_wake_keeps_order(s.wake_all(upto - 1, reason, hq, now).0, upto - 1, hq);
    }
}

/// Killing a process keeps every process in exactly one place.
pub proof fn law_kill_keeps_order(s: SchedV, pid: int, code: i32, hq: int)
    requires
        in_order(s),
        0 <= hq < MAX_HART,
    ensures
        in_order(s.kill_with(pid, code, hq).0),
{
    if let Some(p) = s.proc(pid) {
        if !(p.state is Zombie) {
            let t = s.with_proc(pid, ProcV { killed: true, kill_code: code, ..p });
            lemma_same_places(s, t);
            law_wake_keeps_order(t, pid, hq);
        }
    }
}

/// Killing a group keeps every process in exactly one place.
pub proof fn law_kill_group_keeps_order(s: SchedV, upto: int, cg: usize, me: usize, hq: int)
    requires
        in_order(s),
        0 <= hq < MAX_HART,
    ensures
        in_order(s.kill_group(upto, cg, me, hq).0),
    decreases upto,
{
    if upto > 0 {
        law_kill_group_keeps_order(s, upto - 1, cg, me, hq);
        law_kill_keeps_order(s.kill_group(upto - 1, cg, me, hq).0, upto - 1, life::KILLED, hq);
    }
}

/// A process that a hart holds stops running.
proof fn lemma_stopped(s: SchedV, pid: int, q: ProcV)
    requires
        in_order(s),
        s.proc(pid) is Some,
        s.is_current(pid as usize),
        pid <= usize::MAX,
        s.with_proc(pid, q).wf(),
        q.state is Blocked || q.state is Zombie,
    ensures
        in_order(s.with_proc(pid, q)),
        total(s, pid as usize) == 0,
{
    let u = s.with_proc(pid, q);
    let w = pid as usize;
    assert(on_hart(s)(w));
    assert(total(s, w) == 0);
    assert forall|x: usize| #[trigger] u.is_current(x) == s.is_current(x) by {
        sched::lemma_current_same(s, u, x);
    }
    assert forall|x: usize| #[trigger] total(u, x) == total(s, x) by {}
    assert forall|x: usize| #[trigger] total(u, x) > 0 implies !on_hart(u)(x) && (u.proc(x as int) matches Some(p)
        && p.state is Runnable) by {
        assert(total(s, x) > 0);
        assert(x != w);
        assert(!on_hart(s)(x));
        assert(s.proc(x as int) is Some);
    }
    assert forall|x: usize|
        (#[trigger] u.proc(x as int) matches Some(p) && p.state is Runnable) implies total(u, x) == 1
        || on_hart(u)(x) by {
        assert(x != w);
        assert(s.proc(x as int) == u.proc(x as int));
        assert(total(s, x) == 1 || on_hart(s)(x));
    }
    assert forall|x: usize| (#[trigger] u.proc(x as int) matches Some(p) && p.state is Running) implies on_hart(
        u,
    )(x) by {
        assert(x != w);
        assert(s.proc(x as int) == u.proc(x as int));
        assert(on_hart(s)(x));
    }
}

/// Blocking a hart's process to wait for a child keeps every process in
/// exactly one place.
pub proof fn law_waiting_keeps_order(s: SchedV, h: int)
    requires
        in_order(s),
        0 <= h < MAX_HART,
    ensures
        in_order(s.waiting(h)),
{
    if let Some(p) = s.running_on(h) {
        if p.state is Running {
            let cur = s.current[h];
            assert(s.is_current(cur)) by {
                assert(s.current[h] == cur);
            }
            lemma_stopped(
                s,
                cur as int,
                ProcV { state: State::Blocked, blocked_on: BLOCK_WAIT, wake_at: 0, ..p },
            );
        }
    }
}

// ---- exit ----

/// How often `x` is set aside.
pub open spec fn aside(st: Seq<(int, usize)>, x: usize) -> nat
    decreases st.len(),
{
    if st.len() == 0 {
        0
    } else {
        aside(st.drop_last(), x) + if st.last().1 == x {
            1nat
        } else {
            0
        }
    }
}

pub open spec fn harts_ok(st: Seq<(int, usize)>) -> bool {
    forall|i: int| 0 <= i < st.len() ==> 0 <= (#[trigger] st[i]).0 < MAX_HART
}

proof fn lemma_scan_counts(
    s: SchedV,
    h: int,
    exclude: usize,
    v: int,
    q: Seq<usize>,
    back: Seq<usize>,
    st: Seq<(int, usize)>,
    skip: bool,
    now: u64,
    x: usize,
)
    requires
        forall|i: int| 0 <= i < q.len() ==> s.takeable(h, #[trigger] q[i]) && q[i] != exclude,
        harts_ok(st),
        0 <= v < MAX_HART,
    ensures
        ({
            let (l, t, r) = s.scan_queue(h, exclude, v, q, back, st, skip, now);
            &&& harts_ok(t)
            &&& occ(l, x) + aside(t, x) + (if r == Some(x) {
                1nat
            } else {
                0
            }) == occ(q, x) + occ(back, x) + aside(st, x)
        }),
    decreases q.len(),
{
    if q.len() > 0 {
        lemma_occ_first(q, x);
        let rest = q.skip(1);
        assert forall|i: int| 0 <= i < rest.len() implies s.takeable(h, #[trigger] rest[i]) && rest[i]
            != exclude by {
            assert(rest[i] == q[i + 1]);
        }
        assert(s.takeable(h, q[0]));
        if skip && s.over_quota(s.group_of(q[0]), now) {
            if st.len() < sched::STASH_ALL {
                let st2 = st.push((v, q[0]));
                assert(st2.drop_last() =~= st);
                lemma_scan_counts(s, h, exclude, v, rest, back, st2, skip, now, x);
            } else {
                lemma_occ_push(back, q[0], x);
                lemma_scan_counts(s, h, exclude, v, rest, back.push(q[0]), st, skip, now, x);
            }
        } else {
            lemma_occ_add(rest, back, x);
        }
    }
}

proof fn lemma_unstash_counts(s: SchedV, st: Seq<(int, usize)>, upto: int, x: usize)
    requires
        s.queues.len() == MAX_HART,
        harts_ok(st),
        0 <= upto <= st.len(),
    ensures
        total(s.unstash(st, upto), x) == total(s, x) + aside(st.take(upto), x),
        s.unstash(st, upto) == (SchedV { queues: s.unstash(st, upto).queues, ..s }),
        s.unstash(st, upto).queues.len() == MAX_HART,
    decreases upto,
{
    if upto <= 0 {
        assert(st.take(0) =~= Seq::empty());
    } else {
        lemma_unstash_counts(s, st, upto - 1, x);
        let t = s.unstash(st, upto - 1);
        let (v, pid) = st[upto - 1];
        assert(st.take(upto).drop_last() =~= st.take(upto - 1));
        lemma_total_queue(t, v, t.queues[v].push(pid), x);
        lemma_occ_push(t.queues[v], pid, x);
    }
}

proof fn lemma_find_counts(
    s: SchedV,
    h: int,
    exclude: usize,
    off: int,
    st: Seq<(int, usize)>,
    skip: bool,
    now: u64,
    x: usize,
)
    requires
        s.queues.len() == MAX_HART,
        0 <= h,
        0 <= off,
        all_takeable(s, h),
        total(s, exclude) == 0,
        harts_ok(st),
    ensures
        ({
            let (t, r) = s.find_pass(h, exclude, off, st, skip, now);
            &&& t == (SchedV { queues: t.queues, steals: t.steals, ..s })
            &&& t.queues.len() == MAX_HART
            &&& total(t, x) + (if r == Some(x) {
                1nat
            } else {
                0
            }) == total(s, x) + aside(st, x)
        }),
    decreases MAX_HART - off,
{
    if off >= MAX_HART {
        lemma_unstash_counts(s, st, st.len() as int, x);
        assert(st.take(st.len() as int) =~= st);
    } else {
        let v = (h + off) % (MAX_HART as int);
        let q = s.queues[v];
        assert forall|i: int| 0 <= i < q.len() implies s.takeable(h, #[trigger] q[i]) && q[i] != exclude by {
            lemma_queued(q, i);
            assert(total(s, q[i]) > 0);
        }
        let (l, t, r) = s.scan_queue(h, exclude, v, q, Seq::empty(), st, skip, now);
        let u = s.with_queue(v, l);
        assert(occ(Seq::<usize>::empty(), x) == 0);
        lemma_scan_counts(s, h, exclude, v, q, Seq::empty(), st, skip, now, x);
        lemma_total_queue(s, v, l, x);
        if r is Some {
            let w = if off > 0 {
                SchedV { steals: u.steals.wrapping_add(1), ..u }
            } else {
                u
            };
            assert(total(w, x) == total(u, x));
            lemma_unstash_counts(w, t, t.len() as int, x);
            assert(t.take(t.len() as int) =~= t);
        } else {
            assert forall|y: usize| #[trigger] total(u, y) > 0 implies u.takeable(h, y) && y != exclude by {
                lemma_scan_counts(s, h, exclude, v, q, Seq::empty(), st, skip, now, y);
                lemma_scan_part(s, h, exclude, v, q, Seq::empty(), st, skip, now, y);
                lemma_total_queue(s, v, l, y);
                assert(occ(Seq::<usize>::empty(), y) == 0);
                assert(total(s, y) > 0);
                sched::lemma_takeable_same(s, u, h, y);
            }
            lemma_find_counts(u, h, exclude, off + 1, t, skip, now, x);
        }
    }
}

/// What a scan leaves was there.
proof fn lemma_scan_part(
    s: SchedV,
    h: int,
    exclude: usize,
    v: int,
    q: Seq<usize>,
    back: Seq<usize>,
    st: Seq<(int, usize)>,
    skip: bool,
    now: u64,
    x: usize,
)
    ensures
        occ(s.scan_queue(h, exclude, v, q, back, st, skip, now).0, x) <= occ(q, x) + occ(back, x),
    decreases q.len(),
{
    if q.len() > 0 {
        lemma_occ_first(q, x);
        let rest = q.skip(1);
        lemma_scan_part(s, h, exclude, v, rest, back, st, skip, now, x);
        lemma_scan_part(s, h, exclude, v, rest, back, st.push((v, q[0])), skip, now, x);
        lemma_scan_part(s, h, exclude, v, rest, back.push(q[0]), st, skip, now, x);
        lemma_occ_push(back, q[0], x);
        lemma_occ_add(rest, back, x);
    }
}

proof fn lemma_next_counts(s: SchedV, h: int, exclude: usize, now: u64, x: usize)
    requires
        s.queues.len() == MAX_HART,
        0 <= h,
        all_takeable(s, h),
        total(s, exclude) == 0,
    ensures
        ({
            let (t, r) = s.find_next(h, exclude, now);
            &&& t == (SchedV { queues: t.queues, steals: t.steals, ..s })
            &&& t.queues.len() == MAX_HART
            &&& total(t, x) + (if r == Some(x) {
                1nat
            } else {
                0
            }) == total(s, x)
        }),
{
    let e = Seq::<(int, usize)>::empty();
    lemma_find_counts(s, h, exclude, 0, e, true, now, x);
    let (t, r) = s.find_pass(h, exclude, 0, e, true, now);
    if r is None {
        assert forall|y: usize| #[trigger] total(t, y) > 0 implies t.takeable(h, y) by {
            lemma_find_counts(s, h, exclude, 0, e, true, now, y);
            sched::lemma_takeable_same(s, t, h, y);
        }
        lemma_find_counts(s, h, exclude, 0, e, true, now, exclude);
        lemma_find_counts(t, h, exclude, 0, e, false, now, x);
    }
}

/// Handing children over places no process anew.
proof fn lemma_reparent_places(s: SchedV, kids: Seq<usize>, n: int)
    requires
        in_order(s),
        n <= kids.len(),
    ensures
        in_order(life::reparent(s, kids, n)),
        life::reparent(s, kids, n).current == s.current,
        life::reparent(s, kids, n).queues == s.queues,
        forall|i: int|
            (#[trigger] life::reparent(s, kids, n).proc(i)) is Some == s.proc(i) is Some && (
            s.proc(i) is Some ==> (life::reparent(s, kids, n).proc(i)->0).state == (s.proc(
                i,
            )->0).state),
    decreases n,
{
    if n > 0 {
        lemma_reparent_places(s, kids, n - 1);
        let t = life::reparent(s, kids, n - 1);
        let c = kids[n - 1];
        if let Some(p) = t.proc(c as int) {
            let u = t.with_proc(c as int, ProcV { parent: 1, ..p });
            lemma_same_places(t, u);
            if let Some(init) = u.proc(1) {
                if !init.children.contains(c) {
                    let w = u.with_proc(1, ProcV { children: init.children.push(c), ..init });
                    lemma_same_places(u, w);
                }
            }
        }
        let r = life::reparent(s, kids, n);
        assert forall|i: int| (#[trigger] r.proc(i)) is Some == s.proc(i) is Some && (s.proc(i) is Some ==> (
        r.proc(i)->0).state == (s.proc(i)->0).state) by {
            assert(t.proc(i) is Some == s.proc(i) is Some);
        }
    }
}

/// The exit of the process a hart runs keeps every other process in exactly
/// one place, and leaves the dead one in none.
#[verifier::spinoff_prover]
#[verifier::rlimit(60)]
pub proof fn law_exit_keeps_order(s: SchedV, code: i32, h: int, now: u64)
    requires
        in_order(s),
        0 <= h < MAX_HART,
        s.running_on(h) matches Some(p) && !(p.state is Zombie),
    ensures
        in_order(s.exit(s.current[h], code, h, now).0),
        !s.exit(s.current[h], code, h, now).0.is_current(s.current[h]),
        total(s.exit(s.current[h], code, h, now).0, s.current[h]) == 0,
{
    let pid = s.current[h];
    assert(s.is_current(pid)) by {
        assert(s.current[h] == pid);
    }
    let p = s.running_on(h)->0;
    let a = s.died(pid as int, code);
    lemma_stopped(s, pid as int, ProcV { state: State::Zombie, exit_code: code, ..p });
    let b = a.orphaned(pid as int);
    assert(in_order(b) && b.current == s.current && (b.proc(pid as int) matches Some(q)
        && q.state is Zombie)) by {
        if pid != 1 {
            let kids = (a.proc(pid as int)->0).children;
            let t = life::reparent(a, kids, kids.len() as int);
            lemma_reparent_places(a, kids, kids.len() as int);
            assert(t.proc(pid as int) is Some);
            let me = t.proc(pid as int)->0;
            lemma_same_places(t, t.with_proc(pid as int, ProcV { children: Seq::empty(), ..me }));
        }
    }
    let c = b.parent_told(pid as int, h);
    assert(in_order(c) && c.current == s.current && (c.proc(pid as int) matches Some(q)
        && q.state is Zombie)) by {
        let par = b.parent_of(pid as int) as int;
        law_wake_keeps_order(b, par, h);
    }
    assert(pid != 0);
    assert forall|x: usize| x != pid implies #[trigger] c.is_current(x) == c.owned_elsewhere(h, x) by {
        if c.is_current(x) {
            let k = choose|k: int| 0 <= k < MAX_HART && #[trigger] c.current[k] == x;
            assert(k != h);
        }
    }
    assert(!c.owned_elsewhere(h, pid)) by {
        if c.owned_elsewhere(h, pid) {
            let k = choose|k: int| 0 <= k < MAX_HART && k != h && #[trigger] c.current[k] == pid;
            assert(c.current[k] == c.current[h]);
        }
    }
    assert(total(c, pid) == 0);
    assert(once(c, on_other(c, h))) by {
        assert forall|x: usize| #[trigger] total(c, x) > 0 implies !on_other(c, h)(x) && (c.proc(
            x as int,
        ) matches Some(p) && p.state is Runnable) by {
            assert(!on_hart(c)(x));
            assert(x != pid);
            assert(c.is_current(x) == c.owned_elsewhere(h, x));
        }
        assert forall|x: usize|
            (#[trigger] c.proc(x as int) matches Some(p) && p.state is Runnable) implies total(c, x) == 1
            || on_other(c, h)(x) by {
            assert(x != pid);
            assert(total(c, x) == 1 || on_hart(c)(x));
            assert(c.is_current(x) == c.owned_elsewhere(h, x));
        }
        assert forall|x: usize|
            (#[trigger] c.proc(x as int) matches Some(p) && p.state is Running) implies on_other(c, h)(x) by {
            assert(x != pid);
            assert(on_hart(c)(x));
            assert(c.is_current(x) == c.owned_elsewhere(h, x));
        }
    }
    lemma_once_takeable(c, h);
    let (t, r) = c.find_next(h, pid, now);
    assert forall|x: usize| #[trigger] total(t, x) + (if r == Some(x) {
        1nat
    } else {
        0
    }) == total(c, x) by {
        lemma_next_counts(c, h, pid, now, x);
    }
    lemma_next_counts(c, h, pid, now, pid);
    match r {
        Some(y) => {
            assert(total(t, y) + 1 == total(c, y));
            assert(y != pid);
            sched::lemma_takeable_same(c, t, h, y);
            assert(c.takeable(h, y));
            lemma_taken(c, t, h, y);
            let u = t.running(h, y);
            assert(!on_other(c, h)(y));
            assert(y != 0);
            assert forall|j: int, k: int|
                0 <= j < MAX_HART && 0 <= k < MAX_HART && j != k && #[trigger] u.current[j]
                    == #[trigger] u.current[k] implies u.current[j] == 0 by {
                if j == h {
                    assert(c.current[k] == y);
                } else if k == h {
                    assert(c.current[j] == y);
                } else {
                    assert(s.current[j] == s.current[k]);
                }
            }
            assert(total(u, pid) == total(t, pid));
            if u.is_current(pid) {
                let k = choose|k: int| 0 <= k < MAX_HART && #[trigger] u.current[k] == pid;
                assert(k != h);
                assert(c.current[k] == pid);
            }
        },
        None => {
            lemma_none_taken(c, t, h);
            let u = t.idling(h);
            assert forall|j: int, k: int|
                0 <= j < MAX_HART && 0 <= k < MAX_HART && j != k && #[trigger] u.current[j]
                    == #[trigger] u.current[k] implies u.current[j] == 0 by {
                if j != h && k != h {
                    assert(s.current[j] == s.current[k]);
                }
            }
            assert(total(u, pid) == total(t, pid));
            if u.is_current(pid) {
                let k = choose|k: int| 0 <= k < MAX_HART && #[trigger] u.current[k] == pid;
                assert(k != h);
                assert(c.current[k] == pid);
            }
        },
    }
}

/// Reaping an ended process that no hart holds keeps every other process in
/// exactly one place.
pub proof fn law_reap_keeps_order(s: SchedV, pid: int, c: usize)
    requires
        in_order(s),
        s.proc(c as int) matches Some(p) && p.state is Zombie,
    ensures
        in_order(s.reap(pid, c)),
{
    let u = s.reap(pid, c);
    assert(total(s, c) == 0);
    assert forall|x: usize| #[trigger] u.is_current(x) == s.is_current(x) by {
        sched::lemma_current_same(s, u, x);
    }
    assert forall|x: usize| #[trigger] total(u, x) == total(s, x) by {
        lemma_occ_without(s.queues[0], c, x);
        lemma_occ_without(s.queues[1], c, x);
        lemma_occ_without(s.queues[2], c, x);
        lemma_occ_without(s.queues[3], c, x);
    }
    assert forall|x: usize| #[trigger] total(u, x) > 0 implies !on_hart(u)(x) && (u.proc(x as int) matches Some(p)
        && p.state is Runnable) by {
        assert(total(s, x) > 0);
        assert(x != c);
        assert(!on_hart(s)(x));
        assert(s.proc(x as int) is Some);
    }
    assert forall|x: usize|
        (#[trigger] u.proc(x as int) matches Some(p) && p.state is Runnable) implies total(u, x) == 1
        || on_hart(u)(x) by {
        assert(s.proc(x as int) is Some);
        assert(total(s, x) == 1 || on_hart(s)(x));
    }
    assert forall|x: usize| (#[trigger] u.proc(x as int) matches Some(p) && p.state is Running) implies on_hart(
        u,
    )(x) by {
        assert(s.proc(x as int) is Some);
        assert(on_hart(s)(x));
    }
}

/// A forked child is queued once; every other process stays where it was.
pub proof fn law_fork_keeps_order(s: SchedV, parent: int, root: u64, tf: u64, hq: int, now: u64)
    requires
        in_order(s),
        s.proc(parent) is Some,
        s.next_pid < usize::MAX - 1,
        0 <= hq < MAX_HART,
        forall|h: int| 0 <= h < MAX_HART ==> #[trigger] s.current[h] < s.next_pid,
        s.reserved().forked(parent, s.next_pid, root, tf, hq, now).wf(),
    ensures
        in_order(s.reserved().forked(parent, s.next_pid, root, tf, hq, now)),
        total(s.reserved().forked(parent, s.next_pid, root, tf, hq, now), s.next_pid) == 1,
{
    let c = s.next_pid;
    let r = s.reserved();
    let u = r.forked(parent, c, root, tf, hq, now);
    assert(s.proc(c as int) is None);
    assert(total(s, c) == 0);
    assert(!s.is_current(c)) by {
        if s.is_current(c) {
            let h = choose|h: int| 0 <= h < MAX_HART && #[trigger] s.current[h] == c;
        }
    }
    assert(u.current == s.current);
    assert forall|x: usize| #[trigger] u.is_current(x) == s.is_current(x) by {
        sched::lemma_current_same(s, u, x);
    }
    assert(r.procs[parent] == s.procs[parent]);
    assert forall|x: usize| #[trigger] total(u, x) == total(s, x) + (if x == c {
        1nat
    } else {
        0
    }) by {
        let p = r.procs[parent]->0;
        let (s1, ns, lpid) = r.placed(parent, p, c);
        lemma_total_queue(s, hq, s.queues[hq].push(c), x);
        lemma_occ_push(s.queues[hq], c, x);
        sched::lemma_current_same(s, SchedV { queues: s.queues, ..u }, c);
    }
    assert forall|i: int| i != c implies (#[trigger] u.proc(i)) is Some == s.proc(i) is Some && (s.proc(i) is Some
        ==> (u.proc(i)->0).state == (s.proc(i)->0).state) by {
        if 0 <= i < s.procs.len() {
            assert(r.procs[i] == s.procs[i]);
        }
    }
    assert forall|x: usize| #[trigger] total(u, x) <= 1 by {
        assert(total(s, x) <= 1);
    }
    assert forall|x: usize| #[trigger] total(u, x) > 0 implies !on_hart(u)(x) && (u.proc(x as int) matches Some(p)
        && p.state is Runnable) by {
        if x != c {
            assert(total(s, x) > 0);
            assert(!on_hart(s)(x));
            assert(s.proc(x as int) is Some);
        }
    }
    assert forall|x: usize|
        (#[trigger] u.proc(x as int) matches Some(p) && p.state is Runnable) implies total(u, x) == 1
        || on_hart(u)(x) by {
        if x != c {
            assert(s.proc(x as int) is Some);
            assert(total(s, x) == 1 || on_hart(s)(x));
        } else {
            assert(total(u, c) == total(s, c) + 1);
        }
    }
    assert forall|x: usize| (#[trigger] u.proc(x as int) matches Some(p) && p.state is Running) implies on_hart(
        u,
    )(x) by {
        assert(x != c);
        assert(s.proc(x as int) is Some);
        assert(on_hart(s)(x));
    }
    assert(u.proc(0) is None) by {
        assert(s.proc(0) is None);
    }
}

} // verus!
