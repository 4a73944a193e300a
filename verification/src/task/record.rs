//! Exit codes of reaped processes: for how long they are remembered.
use crate::task::keep;
use crate::task::state::{ProcV, SchedV, REAPLOG};
use vstd::prelude::*;

verus! {

/// Ids are given once: whoever is in the table was in it before, or has an id
/// that had not been given.
pub open spec fn ids_once(a: SchedV, b: SchedV) -> bool {
    &&& a.next_pid <= b.next_pid
    &&& forall|i: int| (#[trigger] b.proc(i)) is Some ==> a.proc(i) is Some || i >= a.next_pid
}

/// The codes kept with one more; the oldest goes where there is no room.
pub open spec fn logged(log: Seq<(usize, i32)>, e: (usize, i32)) -> Seq<(usize, i32)> {
    (if log.len() < REAPLOG {
        log
    } else {
        log.skip(1)
    }).push(e)
}

/// One thing that happens to the table: nobody is reaped, or one of those in it.
pub open spec fn goes(a: SchedV, b: SchedV) -> bool {
    &&& ids_once(a, b)
    &&& b.reaped != a.reaped ==> {
        &&& b.reaped.len() > 0
        &&& a.proc(b.reaped.last().0 as int) is Some
        &&& b.reaped == logged(a.reaped, b.reaped.last())
    }
}

/// A table over time.
pub open spec fn history(h: Seq<SchedV>) -> bool {
    forall|i: int| 0 <= i < h.len() - 1 ==> #[trigger] goes_at(h, i)
}

pub open spec fn goes_at(h: Seq<SchedV>, i: int) -> bool {
    goes(h[i], h[i + 1])
}

/// How many were reaped in the first `n` steps.
pub open spec fn reaps(h: Seq<SchedV>, n: int) -> nat
    decreases n,
{
    if n <= 0 {
        0
    } else {
        reaps(h, n - 1) + if h[n].reaped != h[n - 1].reaped {
            1nat
        } else {
            0
        }
    }
}

// ---- what happens to a table ----

/// Reaping takes a process out of the table and its code into the record.
pub proof fn law_reap_goes(s: SchedV, pid: int, c: usize)
    requires
        s.wf(),
        s.proc(c as int) is Some,
    ensures
        goes(s, s.reap(pid, c)),
        s.reap(pid, c).proc(c as int) is None,
        s.reap(pid, c).reaped == logged(s.reaped, (c, (s.procs[c as int]->0).exit_code)),
{
    let t = s.reap(pid, c);
    assert(t.reaped.last() == (c, (s.procs[c as int]->0).exit_code));
}

/// What leaves all processes in place reaps nobody.
pub proof fn law_keeping_goes(a: SchedV, b: SchedV)
    requires
        keep::kept(a, b),
    ensures
        goes(a, b),
{
    assert forall|i: int| (#[trigger] b.proc(i)) is Some implies a.proc(i) is Some || i >= a.next_pid by {
        if 0 <= i < b.procs.len() {
            assert(match (a.procs[i], b.procs[i]) {
                (Some(p), Some(q)) => true,
                (None, None) => true,
                _ => false,
            });
        }
    }
}

/// Changing a process reaps nobody.
pub proof fn law_change_goes(s: SchedV, i: int, p: ProcV)
    requires
        s.proc(i) is Some,
    ensures
        goes(s, s.with_proc(i, p)),
{
}

/// A new id reaps nobody, and neither do a fork and a new program under it.
pub proof fn law_making_goes(
    s: SchedV,
    parent: int,
    root: u64,
    tf: u64,
    name: Seq<u8>,
    brk: u64,
    hq: int,
    now: u64,
)
    requires
        s.wf(),
        s.next_pid < usize::MAX,
        0 <= parent < s.next_pid,
        0 <= hq < s.queues.len(),
    ensures
        goes(s, s.reserved()),
        s.proc(parent) is Some ==> goes(s, s.reserved().forked(parent, s.next_pid, root, tf, hq, now)),
        goes(s, s.reserved().spawned(s.next_pid, parent as usize, root, tf, name, brk, hq, now)),
{
    let r = s.reserved();
    assert forall|i: int| (#[trigger] r.proc(i)) is Some implies s.proc(i) is Some by {
        if 0 <= i < s.procs.len() {
            assert(r.procs[i] == s.procs[i]);
        }
    }
    let f = r.forked(parent, s.next_pid, root, tf, hq, now);
    if s.proc(parent) is Some {
        assert(r.procs[parent] == s.procs[parent]);
        assert forall|i: int| (#[trigger] f.proc(i)) is Some implies s.proc(i) is Some || i >= s.next_pid by {
            if i != parent && i < s.next_pid {
                assert(f.proc(i) == r.proc(i));
            }
        }
    }
    let g = r.spawned(s.next_pid, parent as usize, root, tf, name, brk, hq, now);
    assert forall|i: int| (#[trigger] g.proc(i)) is Some implies s.proc(i) is Some || i >= s.next_pid by {
        if i < s.next_pid {
            assert(g.proc(i) is Some ==> r.proc(i) is Some);
        }
    }
}

// ---- the record ----

/// The code of `c` stands `k` places from the end of the record, nothing newer
/// is of the same id, and the id is not given again.
pub open spec fn remembers(s: SchedV, c: usize, code: i32, k: int) -> bool {
    &&& 0 <= k < s.reaped.len()
    &&& s.reaped[s.reaped.len() - 1 - k] == (c, code)
    &&& forall|i: int| s.reaped.len() - k <= i < s.reaped.len() ==> (#[trigger] s.reaped[i]).0 != c
    &&& s.proc(c as int) is None
    &&& c < s.next_pid
    &&& s.reaped.len() <= REAPLOG
}

proof fn lemma_remembers(a: SchedV, b: SchedV, c: usize, code: i32, k: int) -> (n: int)
    requires
        remembers(a, c, code, k),
        goes(a, b),
        k < REAPLOG - 1 || b.reaped == a.reaped,
    ensures
        remembers(b, c, code, n),
        n == if b.reaped != a.reaped {
            k + 1
        } else {
            k
        },
{
    if b.reaped != a.reaped {
        let e = b.reaped.last();
        let base = if a.reaped.len() < REAPLOG {
            a.reaped
        } else {
            a.reaped.skip(1)
        };
        assert(e.0 != c);
        let n = k + 1;
        assert(b.reaped[b.reaped.len() - 1 - n] == base[base.len() - 1 - k]);
        assert forall|i: int| b.reaped.len() - n <= i < b.reaped.len() implies (#[trigger] b.reaped[i]).0 != c by {
            if i < b.reaped.len() - 1 {
                assert(b.reaped[i] == base[i]);
                let d = a.reaped.len() - base.len();
                assert(base[i] == a.reaped[i + d]);
            }
        }
        n
    } else {
        k
    }
}

proof fn lemma_over_time(h: Seq<SchedV>, c: usize, code: i32, n: int)
    requires
        history(h),
        0 <= n < h.len(),
        remembers(h[0], c, code, 0),
        reaps(h, n) < REAPLOG,
    ensures
        remembers(h[n], c, code, reaps(h, n) as int),
    decreases n,
{
    if n > 0 {
        lemma_over_time(h, c, code, n - 1);
        assert(goes_at(h, n - 1));
        let _ = lemma_remembers(h[n - 1], h[n], c, code, reaps(h, n - 1) as int);
    }
}

proof fn lemma_found(s: SchedV, c: usize, code: i32, k: int, n: int)
    requires
        remembers(s, c, code, k),
        s.reaped.len() - k <= n <= s.reaped.len(),
    ensures
        s.reap_record(c, n) == Some(code),
    decreases n,
{
    if n > s.reaped.len() - k {
        assert(s.reaped[n - 1].0 != c);
        lemma_found(s, c, code, k, n - 1);
    } else {
        assert(s.reaped[n - 1] == (c, code));
    }
}

/// The code of a reaped process can be asked for as long as fewer than
/// `REAPLOG` others have been reaped since, whatever else happened.
pub proof fn law_code_is_remembered(s: SchedV, pid: int, c: usize, h: Seq<SchedV>)
    requires
        s.wf(),
        s.proc(c as int) is Some,
        h.len() > 0,
        h[0] == s.reap(pid, c),
        history(h),
        reaps(h, h.len() - 1) < REAPLOG,
    ensures
        h.last().reap_record(c, h.last().reaped.len() as int) == Some((s.procs[c as int]->0).exit_code),
{
    let code = (s.procs[c as int]->0).exit_code;
    law_reap_goes(s, pid, c);
    assert(h[0].reaped.last() == (c, code));
    lemma_over_time(h, c, code, h.len() - 1);
    lemma_found(h.last(), c, code, reaps(h, h.len() - 1) as int, h.last().reaped.len() as int);
}

/// Nobody has the id in the record.
pub open spec fn unknown(s: SchedV, pid: usize) -> bool {
    forall|i: int| 0 <= i < s.reaped.len() ==> (#[trigger] s.reaped[i]).0 != pid
}

proof fn lemma_unknown(s: SchedV, pid: usize, n: int)
    requires
        unknown(s, pid),
        n <= s.reaped.len(),
    ensures
        s.reap_record(pid, n) is None,
    decreases n,
{
    if n > 0 {
        assert(s.reaped[n - 1].0 != pid);
        lemma_unknown(s, pid, n - 1);
    }
}

/// A process that was never reaped has no code to ask for.
pub proof fn law_unreaped_has_no_code(pid: usize, h: Seq<SchedV>)
    requires
        h.len() > 0,
        h[0].reaped.len() == 0,
        history(h),
        forall|i: int|
            0 < i < h.len() && (#[trigger] h[i]).reaped != h[i - 1].reaped ==> h[i].reaped.last().0 != pid,
    ensures
        h.last().reap_record(pid, h.last().reaped.len() as int) is None,
{
    lemma_never(pid, h, h.len() - 1);
    lemma_unknown(h.last(), pid, h.last().reaped.len() as int);
}

proof fn lemma_never(pid: usize, h: Seq<SchedV>, n: int)
    requires
        0 <= n < h.len(),
        h[0].reaped.len() == 0,
        history(h),
        forall|i: int|
            0 < i < h.len() && (#[trigger] h[i]).reaped != h[i - 1].reaped ==> h[i].reaped.last().0 != pid,
    ensures
        unknown(h[n], pid),
    decreases n,
{
    if n > 0 {
        lemma_never(pid, h, n - 1);
        assert(goes_at(h, n - 1));
        let (a, b) = (h[n - 1], h[n]);
        if b.reaped != a.reaped {
            assert forall|i: int| 0 <= i < b.reaped.len() implies (#[trigger] b.reaped[i]).0 != pid by {
                if i < b.reaped.len() - 1 {
                    let d: int = if a.reaped.len() < REAPLOG {
                        0
                    } else {
                        1
                    };
                    assert(b.reaped[i] == a.reaped[i + d]);
                }
            }
        }
    }
}

} // verus!
