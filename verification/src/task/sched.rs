//! Run queues: enqueueing, picking, stealing, and the scheduling point.
use crate::task::state;
use crate::task::state::{ProcV, Sched, SchedV, State, MAX_CG, MAX_HART};
use std::collections::VecDeque;
use vstd::prelude::*;

verus! {

/// Over-quota tasks set aside while one queue is searched.
pub const STASH: usize = 32;

// ---- processor quotas ----

impl SchedV {
    /// The group has used more of the current window of a hundred ticks than
    /// its cap allows so far.
    pub open spec fn over_quota(self, cg: int, now: u64) -> bool {
        0 <= cg < MAX_CG && self.cpu[cg].cap != 0 && self.cpu[cg].win == now / 100
            && self.cpu[cg].win_use * 100 > (self.cpu[cg].cap - 1) * (now % 100 + 1)
    }
}

/// Is the group over its cap in the current window?
pub fn cg_over_quota(s: &Sched, cg: usize, now: u64) -> (r: bool)
    ensures
        r == s@.over_quota(cg as int, now),
{
    if cg >= MAX_CG {
        return false;
    }
    let c = s.cpu[cg];
    if c.cap == 0 {
        return false;
    }
    if c.win != now / 100 {
        return false;
    }
    let pct: u128 = (c.cap - 1) as u128;
    let elapsed: u128 = (now % 100 + 1) as u128;
    assert(pct * elapsed <= u64::MAX as u128 * 100) by (nonlinear_arith)
        requires
            pct <= u64::MAX as u128,
            elapsed <= 100,
    ;
    c.win_use as u128 * 100 > pct * elapsed
}

// ---- queues ----

impl SchedV {
    /// Some hart runs the process.
    pub open spec fn is_current(self, pid: usize) -> bool {
        exists|h: int| 0 <= h < MAX_HART && #[trigger] self.current[h] == pid
    }

    /// A hart other than `h` runs the process.
    pub open spec fn owned_elsewhere(self, h: int, pid: usize) -> bool {
        exists|k: int| 0 <= k < MAX_HART && k != h && #[trigger] self.current[k] == pid
    }

    /// Queueing a process on hart `hq`. A process that some hart runs is left
    /// to that hart: a second copy would let two harts run it.
    pub open spec fn enqueue(self, pid: usize, hq: int) -> SchedV {
        if self.is_current(pid) {
            self
        } else {
            self.with_queue(hq, self.queues[hq].push(pid))
        }
    }

    /// The process could run on hart `h`.
    pub open spec fn takeable(self, h: int, pid: usize) -> bool {
        match self.proc(pid as int) {
            Some(p) => (p.state is Runnable || p.state is Running) && !self.owned_elsewhere(h, pid),
            None => false,
        }
    }

    pub open spec fn group_of(self, pid: usize) -> int {
        match self.proc(pid as int) {
            Some(p) => p.cg as int,
            None => 0,
        }
    }

    /// Searches a queue for a process hart `h` can take: entries that cannot
    /// run are dropped; over-quota ones are set aside, if `skip` asks for it,
    /// and end up at the back. The queue left, and the process found.
    pub open spec fn pop_valid(self, h: int, q: Seq<usize>, stash: Seq<usize>, skip: bool, now: u64) -> (
        Seq<usize>,
        Option<usize>,
    )
        decreases q.len(),
    {
        if q.len() == 0 {
            (stash, None)
        } else if !self.takeable(h, q[0]) {
            self.pop_valid(h, q.skip(1), stash, skip, now)
        } else if skip && stash.len() < STASH && self.over_quota(self.group_of(q[0]), now) {
            self.pop_valid(h, q.skip(1), stash.push(q[0]), skip, now)
        } else {
            (q.skip(1) + stash, Some(q[0]))
        }
    }

    /// One pass over the queues, the hart's own first and then the others in
    /// turn, from the `off`-th on.
    pub open spec fn pick_pass(self, h: int, off: int, skip: bool, now: u64) -> (SchedV, Option<usize>)
        decreases MAX_HART - off,
    {
        if off >= MAX_HART {
            (self, None)
        } else {
            let v = (h + off) % (MAX_HART as int);
            let (q, r) = self.pop_valid(h, self.queues[v], Seq::empty(), skip, now);
            let s = self.with_queue(v, q);
            match r {
                Some(pid) => (
                    if off > 0 {
                        SchedV { steals: s.steals.wrapping_add(1), ..s }
                    } else {
                        s
                    },
                    Some(pid),
                ),
                None => s.pick_pass(h, off + 1, skip, now),
            }
        }
    }

    /// The next process for hart `h`: one within its quota if there is one,
    /// else any.
    pub open spec fn pick(self, h: int, now: u64) -> (SchedV, Option<usize>) {
        let (s, r) = self.pick_pass(h, 0, true, now);
        if r is Some {
            (s, r)
        } else {
            s.pick_pass(h, 0, false, now)
        }
    }
}

/// True if some hart runs the process.
fn is_current(s: &Sched, pid: usize) -> (r: bool)
    ensures
        r == s@.is_current(pid),
{
    let mut h: usize = 0;
    while h < MAX_HART
        invariant
            h <= MAX_HART,
            forall|k: int| 0 <= k < h ==> #[trigger] s@.current[k] != pid,
        decreases MAX_HART - h,
    {
        if s.current[h] == pid {
            assert(s@.current[h as int] == pid);
            return true;
        }
        h += 1;
    }
    false
}

fn owned_elsewhere(s: &Sched, h: usize, pid: usize) -> (r: bool)
    ensures
        r == s@.owned_elsewhere(h as int, pid),
{
    let mut k: usize = 0;
    while k < MAX_HART
        invariant
            k <= MAX_HART,
            forall|j: int| 0 <= j < k && j != h ==> #[trigger] s@.current[j] != pid,
        decreases MAX_HART - k,
    {
        if k != h && s.current[k] == pid {
            assert(s@.current[k as int] == pid);
            return true;
        }
        k += 1;
    }
    false
}

/// Queues a process on a hart, unless some hart runs it. True if it was
/// queued.
pub fn enqueue_locked(s: &mut Sched, pid: usize, hq: usize) -> (queued: bool)
    ensures
        final(s)@ == old(s)@.enqueue(pid, (hq % MAX_HART) as int),
        queued == !old(s)@.is_current(pid),
{
    let q: usize = hq % MAX_HART;
    if is_current(s, pid) {
        return false;
    }
    s.queues[q].push_back(pid);
    assert(s@.queues =~= old(s)@.enqueue(pid, q as int).queues);
    assert(s@.procs =~= old(s)@.procs);
    true
}

fn takeable(s: &Sched, h: usize, pid: usize) -> (r: bool)
    ensures
        r == s@.takeable(h as int, pid),
{
    if pid >= s.procs.len() {
        return false;
    }
    assert(s@.procs[pid as int] == state::opt_proc(s.procs@[pid as int]));
    match &s.procs[pid] {
        Some(p) => { (p.state == State::Runnable || p.state == State::Running) && !owned_elsewhere(s, h, pid)
        },
        None => false,
    }
}

fn group_of(s: &Sched, pid: usize) -> (g: usize)
    ensures
        g == s@.group_of(pid),
{
    if pid >= s.procs.len() {
        return 0;
    }
    assert(s@.procs[pid as int] == state::opt_proc(s.procs@[pid as int]));
    match &s.procs[pid] {
        Some(p) => p.cg,
        None => 0,
    }
}

proof fn lemma_pop_same(a: SchedV, b: SchedV, h: int, q: Seq<usize>, stash: Seq<usize>, skip: bool, now: u64)
    requires
        a.procs == b.procs,
        a.current == b.current,
        a.cpu == b.cpu,
    ensures
        a.pop_valid(h, q, stash, skip, now) == b.pop_valid(h, q, stash, skip, now),
    decreases q.len(),
{
    if q.len() > 0 {
        assert(a.takeable(h, q[0]) == b.takeable(h, q[0])) by {
            assert(a.owned_elsewhere(h, q[0]) == b.owned_elsewhere(h, q[0]));
        }
        lemma_pop_same(a, b, h, q.skip(1), stash, skip, now);
        lemma_pop_same(a, b, h, q.skip(1), stash.push(q[0]), skip, now);
    }
}

/// Searches one queue; see `pop_valid`.
fn search_queue(s: &Sched, h: usize, q: &mut VecDeque<usize>, skip: bool, now: u64) -> (found: Option<usize>)
    ensures
        (final(q)@, found) == s@.pop_valid(h as int, old(q)@, Seq::empty(), skip, now),
{
    let ghost q0 = q@;
    let mut stash: Vec<usize> = Vec::new();
    let mut found: Option<usize> = None;
    let mut more = true;
    while more
        invariant
            q0 == old(q)@,
            more ==> found is None && s@.pop_valid(h as int, q@, stash@, skip, now) == s@.pop_valid(
                h as int,
                q0,
                Seq::empty(),
                skip,
                now,
            ),
            !more ==> (q@ + stash@, found) == s@.pop_valid(h as int, q0, Seq::empty(), skip, now),
        decreases
            q@.len(),
            if more {
                1int
            } else {
                0
            },
    {
        let ghost q1 = q@;
        match q.pop_front() {
            Some(pid) => {
                assert(q@ =~= q1.skip(1));
                if takeable(s, h, pid) {
                    if skip && stash.len() < STASH && cg_over_quota(s, group_of(s, pid), now) {
                        stash.push(pid);
                    } else {
                        found = Some(pid);
                        more = false;
                    }
                }
            },
            None => {
                more = false;
                assert(q@ + stash@ =~= stash@);
            },
        }
    }
    let ghost mid = q@;
    let mut k: usize = 0;
    assert(mid + stash@.take(0) =~= mid);
    while k < stash.len()
        invariant
            k <= stash@.len(),
            q@ == mid + stash@.take(k as int),
        decreases stash@.len() - k,
    {
        q.push_back(stash[k]);
        k += 1;
        assert(q@ =~= mid + stash@.take(k as int));
    }
    assert(stash@.take(k as int) =~= stash@);
    found
}

fn pop_valid_locked(s: &mut Sched, h: usize, v: usize, skip: bool, now: u64) -> (r: Option<usize>)
    requires
        h < MAX_HART,
        v < MAX_HART,
    ensures
        ({
            let (q, found) = old(s)@.pop_valid(
                h as int,
                old(s)@.queues[v as int],
                Seq::empty(),
                skip,
                now,
            );
            &&& final(s)@ == old(s)@.with_queue(v as int, q)
            &&& r == found
        }),
{
    let mut q: VecDeque<usize> = VecDeque::new();
    std::mem::swap(&mut q, &mut s.queues[v]);
    assert(q@ == old(s)@.queues[v as int]);
    assert(s@.procs =~= old(s)@.procs);
    let found = search_queue(s, h, &mut q, skip, now);
    proof {
        lemma_pop_same(s@, old(s)@, h as int, old(s)@.queues[v as int], Seq::empty(), skip, now);
    }
    s.queues[v] = q;
    assert(s@ =~= old(s)@.with_queue(v as int, q@));
    found
}

fn pick_pass(s: &mut Sched, h: usize, skip: bool, now: u64) -> (r: Option<usize>)
    requires
        h < MAX_HART,
    ensures
        (final(s)@, r) == old(s)@.pick_pass(h as int, 0, skip, now),
{
    let mut off: usize = 0;
    while off < MAX_HART
        invariant
            h < MAX_HART,
            off <= MAX_HART,
            s@.pick_pass(h as int, off as int, skip, now) == old(s)@.pick_pass(h as int, 0, skip, now),
        decreases MAX_HART - off,
    {
        let v: usize = (h + off) % MAX_HART;
        if let Some(pid) = pop_valid_locked(s, h, v, skip, now) {
            if off > 0 {
                let ghost mid = s@;
                s.steals = s.steals.wrapping_add(1);
                assert(s@ =~= (SchedV { steals: mid.steals.wrapping_add(1), ..mid }));
            }
            return Some(pid);
        }
        off += 1;
    }
    None
}

/// The next process for hart `h`, taken off its queue.
pub fn pick_locked(s: &mut Sched, h: usize, now: u64) -> (r: Option<usize>)
    requires
        h < MAX_HART,
    ensures
        (final(s)@, r) == old(s)@.pick(h as int, now),
{
    if let Some(pid) = pick_pass(s, h, true, now) {
        return Some(pid);
    }
    pick_pass(s, h, false, now)
}

// ---- the scheduling point ----

/// What a hart does next: enter a process, or wait for an interrupt.
#[derive(Clone, Copy, PartialEq, Eq, Structural, Debug)]
pub enum Next {
    /// Activate `root`, point the trap path at `tf_pa` (whose kernel stack is
    /// this hart's from now on), and enter the process.
    Run { pid: usize, root: u64, tf_pa: u64 },
    Idle,
}

impl SchedV {
    /// The hart's process, if it can go on, back to the end of its queue; a
    /// blocked or dead one just leaves the hart.
    pub open spec fn requeue(self, h: int) -> SchedV {
        let cur = self.current[h];
        match self.proc(cur as int) {
            Some(p) => match p.state {
                State::Running => self.with_proc(
                    cur as int,
                    ProcV { state: State::Runnable, ..p },
                ).with_queue(h, self.queues[h].push(cur)),
                State::Runnable => self.with_queue(h, self.queues[h].push(cur)),
                _ => SchedV { current: self.current.update(h, 0), ..self },
            },
            None => SchedV { current: self.current.update(h, 0), ..self },
        }
    }

    /// The hart runs `pid`.
    pub open spec fn running(self, h: int, pid: usize) -> SchedV {
        let s = SchedV {
            current: self.current.update(h, pid),
            idle: self.idle.update(h, false),
            ..self
        };
        match self.proc(pid as int) {
            Some(p) => s.with_proc(pid as int, ProcV { state: State::Running, ..p }),
            None => s,
        }
    }

    /// The hart runs nothing and sleeps.
    pub open spec fn idling(self, h: int) -> SchedV {
        SchedV { current: self.current.update(h, 0), idle: self.idle.update(h, true), ..self }
    }

    pub open spec fn enter(self, pid: usize) -> Next {
        match self.proc(pid as int) {
            Some(p) => Next::Run { pid, root: p.root, tf_pa: p.tf_pa },
            None => Next::Idle,
        }
    }

    /// End of a trap on hart `h`.
    pub open spec fn schedule(self, h: int, now: u64) -> (SchedV, Next) {
        let (s, r) = self.requeue(h).pick(h, now);
        match r {
            Some(pid) => (s.running(h, pid), s.enter(pid)),
            None => (s.idling(h), Next::Idle),
        }
    }
}

/// A picked process can run, and no other hart runs it.
pub proof fn lemma_pop_takeable(s: SchedV, h: int, q: Seq<usize>, stash: Seq<usize>, skip: bool, now: u64)
    ensures
        s.pop_valid(h, q, stash, skip, now).1 matches Some(pid) ==> s.takeable(h, pid),
    decreases q.len(),
{
    if q.len() > 0 {
        lemma_pop_takeable(s, h, q.skip(1), stash, skip, now);
        lemma_pop_takeable(s, h, q.skip(1), stash.push(q[0]), skip, now);
    }
}

pub proof fn lemma_current_same(a: SchedV, b: SchedV, pid: usize)
    requires
        a.current == b.current,
    ensures
        a.is_current(pid) == b.is_current(pid),
{
}

pub proof fn lemma_takeable_same(a: SchedV, b: SchedV, h: int, pid: usize)
    requires
        a.procs == b.procs,
        a.current == b.current,
    ensures
        a.takeable(h, pid) == b.takeable(h, pid),
{
    assert(a.owned_elsewhere(h, pid) == b.owned_elsewhere(h, pid));
}

/// Picking changes queues and the steal count only; what it finds can run.
pub proof fn lemma_pass_frame(s: SchedV, h: int, off: int, skip: bool, now: u64)
    requires
        s.queues.len() == MAX_HART,
        0 <= h,
        0 <= off,
    ensures
        ({
            let (t, r) = s.pick_pass(h, off, skip, now);
            &&& t == (SchedV { queues: t.queues, steals: t.steals, ..s })
            &&& t.queues.len() == s.queues.len()
            &&& r matches Some(pid) ==> s.takeable(h, pid)
        }),
    decreases MAX_HART - off,
{
    if off < MAX_HART {
        let v = (h + off) % (MAX_HART as int);
        lemma_pop_takeable(s, h, s.queues[v], Seq::empty(), skip, now);
        let (q, r) = s.pop_valid(h, s.queues[v], Seq::empty(), skip, now);
        let t = s.with_queue(v, q);
        lemma_pass_frame(t, h, off + 1, skip, now);
        if let Some(pid) = t.pick_pass(h, off + 1, skip, now).1 {
            lemma_takeable_same(s, t, h, pid);
        }
    }
}

pub proof fn lemma_pick_frame(s: SchedV, h: int, now: u64)
    requires
        s.queues.len() == MAX_HART,
        0 <= h,
    ensures
        ({
            let (t, r) = s.pick(h, now);
            &&& t == (SchedV { queues: t.queues, steals: t.steals, ..s })
            &&& t.queues.len() == s.queues.len()
            &&& r matches Some(pid) ==> s.takeable(h, pid) && t.takeable(h, pid)
        }),
{
    lemma_pass_frame(s, h, 0, true, now);
    let (t, r) = s.pick_pass(h, 0, true, now);
    lemma_pass_frame(t, h, 0, false, now);
    if r is None {
        if let Some(pid) = t.pick_pass(h, 0, false, now).1 {
            lemma_takeable_same(s, t, h, pid);
        }
    }
    if let Some(pid) = s.pick(h, now).1 {
        lemma_takeable_same(s, s.pick(h, now).0, h, pid);
    }
}

/// Makes hart `h` run a process that exists.
fn make_running(s: &mut Sched, h: usize, pid: usize) -> (n: Next)
    requires
        h < MAX_HART,
        old(s)@.proc(pid as int) is Some,
    ensures
        final(s)@ == old(s)@.running(h as int, pid),
        n == old(s)@.enter(pid),
{
    s.current[h] = pid;
    s.idle[h] = false;
    let mut n = Next::Idle;
    assert(old(s)@.procs[pid as int] == state::opt_proc(old(s).procs@[pid as int]));
    if let Some(p) = &mut s.procs[pid] {
        p.state = State::Running;
        n = Next::Run { pid, root: p.root, tf_pa: p.tf_pa };
    }
    assert(s@ =~= old(s)@.running(h as int, pid));
    n
}

fn make_idle(s: &mut Sched, h: usize)
    requires
        h < MAX_HART,
    ensures
        final(s)@ == old(s)@.idling(h as int),
{
    s.current[h] = 0;
    s.idle[h] = true;
    assert(s@ =~= old(s)@.idling(h as int));
}

fn requeue(s: &mut Sched, h: usize)
    requires
        h < MAX_HART,
    ensures
        final(s)@ == old(s)@.requeue(h as int),
{
    let cur = s.current[h];
    let mut push = false;
    if cur < s.procs.len() {
        assert(s@.procs[cur as int] == state::opt_proc(s.procs@[cur as int]));
        if let Some(p) = &mut s.procs[cur] {
            if p.state == State::Running {
                p.state = State::Runnable;
                push = true;
            } else if p.state == State::Runnable {
                push = true;
            }
        }
    }
    if push {
        s.queues[h].push_back(cur);
    } else {
        s.current[h] = 0;
    }
    assert(s@ =~= old(s)@.requeue(h as int));
}

/// End of a trap: puts the hart's process back and picks the next one.
pub fn schedule_point(s: &mut Sched, h: usize, now: u64) -> (n: Next)
    requires
        h < MAX_HART,
    ensures
        (final(s)@, n) == old(s)@.schedule(h as int, now),
{
    requeue(s, h);
    proof {
        lemma_pick_frame(s@, h as int, now);
    }
    match pick_locked(s, h, now) {
        Some(pid) => make_running(s, h, pid),
        None => {
            make_idle(s, h);
            Next::Idle
        },
    }
}

/// First entry of hart `hart` into user mode: a process if one can be picked.
/// The hart's current process, if it has one, is not put back.
pub fn run_on(s: &mut Sched, hart: usize, now: u64) -> (n: Option<Next>)
    ensures
        ({
            let h = (hart % MAX_HART) as int;
            let (t, r) = old(s)@.pick(h, now);
            match r {
                Some(pid) => final(s)@ == t.running(h, pid) && n == Some(t.enter(pid)),
                None => final(s)@ == t && n is None,
            }
        }),
{
    let h: usize = hart % MAX_HART;
    proof {
        lemma_pick_frame(s@, h as int, now);
    }
    match pick_locked(s, h, now) {
        Some(pid) => Some(make_running(s, h, pid)),
        None => None,
    }
}

// ---- leaving a process for good ----

/// Over-quota tasks set aside while all queues are searched.
pub const STASH_ALL: usize = 64;

impl SchedV {
    /// Searches one queue for an exiting hart: `exclude` and what cannot run
    /// is dropped; over-quota tasks go to the stash, or, when that is full,
    /// to the back. The queue left, the stash, and the process found.
    pub open spec fn scan_queue(
        self,
        h: int,
        exclude: usize,
        v: int,
        q: Seq<usize>,
        back: Seq<usize>,
        stash: Seq<(int, usize)>,
        skip: bool,
        now: u64,
    ) -> (Seq<usize>, Seq<(int, usize)>, Option<usize>)
        decreases q.len(),
    {
        if q.len() == 0 {
            (back, stash, None)
        } else {
            let rest = q.skip(1);
            if q[0] == exclude || !self.takeable(h, q[0]) {
                self.scan_queue(h, exclude, v, rest, back, stash, skip, now)
            } else if skip && self.over_quota(self.group_of(q[0]), now) {
                if stash.len() < STASH_ALL {
                    self.scan_queue(h, exclude, v, rest, back, stash.push((v, q[0])), skip, now)
                } else {
                    self.scan_queue(h, exclude, v, rest, back.push(q[0]), stash, skip, now)
                }
            } else {
                (rest + back, stash, Some(q[0]))
            }
        }
    }

    /// Stashed tasks back to the ends of their queues, in order.
    pub open spec fn unstash(self, stash: Seq<(int, usize)>, upto: int) -> SchedV
        decreases upto,
    {
        if upto <= 0 {
            self
        } else {
            let s = self.unstash(stash, upto - 1);
            let (v, pid) = stash[upto - 1];
            s.with_queue(v, s.queues[v].push(pid))
        }
    }

    pub open spec fn find_pass(
        self,
        h: int,
        exclude: usize,
        off: int,
        stash: Seq<(int, usize)>,
        skip: bool,
        now: u64,
    ) -> (SchedV, Option<usize>)
        decreases MAX_HART - off,
    {
        if off >= MAX_HART {
            (self.unstash(stash, stash.len() as int), None)
        } else {
            let v = (h + off) % (MAX_HART as int);
            let (q, st, r) = self.scan_queue(
                h,
                exclude,
                v,
                self.queues[v],
                Seq::empty(),
                stash,
                skip,
                now,
            );
            let s = self.with_queue(v, q);
            match r {
                Some(pid) => {
                    let t = if off > 0 {
                        SchedV { steals: s.steals.wrapping_add(1), ..s }
                    } else {
                        s
                    };
                    (t.unstash(st, st.len() as int), Some(pid))
                },
                None => s.find_pass(h, exclude, off + 1, st, skip, now),
            }
        }
    }

    /// The process an exiting hart takes next.
    pub open spec fn find_next(self, h: int, exclude: usize, now: u64) -> (SchedV, Option<usize>) {
        let (s, r) = self.find_pass(h, exclude, 0, Seq::empty(), true, now);
        if r is Some {
            (s, r)
        } else {
            s.find_pass(h, exclude, 0, Seq::empty(), false, now)
        }
    }
}

pub open spec fn stash_view(st: Seq<(usize, usize)>) -> Seq<(int, usize)> {
    st.map_values(|e: (usize, usize)| (e.0 as int, e.1))
}

proof fn lemma_scan_same(
    a: SchedV,
    b: SchedV,
    h: int,
    exclude: usize,
    v: int,
    q: Seq<usize>,
    back: Seq<usize>,
    stash: Seq<(int, usize)>,
    skip: bool,
    now: u64,
)
    requires
        a.procs == b.procs,
        a.current == b.current,
        a.cpu == b.cpu,
    ensures
        a.scan_queue(h, exclude, v, q, back, stash, skip, now) == b.scan_queue(
            h,
            exclude,
            v,
            q,
            back,
            stash,
            skip,
            now,
        ),
    decreases q.len(),
{
    if q.len() > 0 {
        lemma_takeable_same(a, b, h, q[0]);
        lemma_scan_same(a, b, h, exclude, v, q.skip(1), back, stash, skip, now);
        lemma_scan_same(a, b, h, exclude, v, q.skip(1), back, stash.push((v, q[0])), skip, now);
        lemma_scan_same(a, b, h, exclude, v, q.skip(1), back.push(q[0]), stash, skip, now);
    }
}

fn scan_queue(
    s: &Sched,
    h: usize,
    exclude: usize,
    v: usize,
    q: &mut VecDeque<usize>,
    stash: &mut Vec<(usize, usize)>,
    skip: bool,
    now: u64,
) -> (found: Option<usize>)
    ensures
        (final(q)@, stash_view(final(stash)@), found) == s@.scan_queue(
            h as int,
            exclude,
            v as int,
            old(q)@,
            Seq::empty(),
            stash_view(old(stash)@),
            skip,
            now,
        ),
        forall|i: int|
            0 <= i < final(stash)@.len() ==> (#[trigger] final(stash)@[i]).0 == v || (i < old(stash)@.len()
                && final(stash)@[i] == old(stash)@[i]),
        final(stash)@.len() >= old(stash)@.len(),
        forall|i: int| 0 <= i < old(stash)@.len() ==> final(stash)@[i] == #[trigger] old(stash)@[i],
{
    let n = q.len();
    let mut k: usize = 0;
    let mut back: Vec<usize> = Vec::new();
    let ghost want = s@.scan_queue(
        h as int,
        exclude,
        v as int,
        old(q)@,
        Seq::empty(),
        stash_view(old(stash)@),
        skip,
        now,
    );
    let mut found: Option<usize> = None;
    while k < n && found.is_none()
        invariant
            k <= n,
            n == old(q)@.len(),
            q@.len() == n - k,
            found is None ==> s@.scan_queue(
                h as int,
                exclude,
                v as int,
                q@,
                back@,
                stash_view(stash@),
                skip,
                now,
            ) == want,
            found is Some ==> (q@ + back@, stash_view(stash@), found) == want,
            forall|i: int|
                0 <= i < stash@.len() ==> (#[trigger] stash@[i]).0 == v || (i < old(stash)@.len() && stash@[i]
                    == old(stash)@[i]),
            stash@.len() >= old(stash)@.len(),
            forall|i: int| 0 <= i < old(stash)@.len() ==> stash@[i] == #[trigger] old(stash)@[i],
        decreases n - k,
    {
        let ghost q1 = q@;
        if let Some(pid) = q.pop_front() {
            assert(q@ =~= q1.skip(1));
            if pid != exclude && takeable(s, h, pid) {
                if skip && cg_over_quota(s, group_of(s, pid), now) {
                    if stash.len() < STASH_ALL {
                        let ghost st = stash@;
                        stash.push((v, pid));
                        assert(stash_view(stash@) =~= stash_view(st).push((v as int, pid)));
                    } else {
                        back.push(pid);
                    }
                } else {
                    found = Some(pid);
                }
            }
        }
        k += 1;
    }
    let ghost mid = q@;
    if found.is_none() {
        assert(q@.len() == 0);
        assert(q@ + back@ =~= back@);
    }
    let mut j: usize = 0;
    assert(mid + back@.take(0) =~= mid);
    while j < back.len()
        invariant
            j <= back@.len(),
            q@ == mid + back@.take(j as int),
        decreases back@.len() - j,
    {
        q.push_back(back[j]);
        j += 1;
        assert(q@ =~= mid + back@.take(j as int));
    }
    assert(back@.take(j as int) =~= back@);
    found
}

fn unstash(s: &mut Sched, stash: &Vec<(usize, usize)>)
    requires
        forall|i: int| 0 <= i < stash@.len() ==> (#[trigger] stash@[i]).0 < MAX_HART,
    ensures
        final(s)@ == old(s)@.unstash(stash_view(stash@), stash@.len() as int),
{
    let mut k: usize = 0;
    while k < stash.len()
        invariant
            k <= stash@.len(),
            forall|i: int| 0 <= i < stash@.len() ==> (#[trigger] stash@[i]).0 < MAX_HART,
            s@ == old(s)@.unstash(stash_view(stash@), k as int),
        decreases stash@.len() - k,
    {
        let ghost before = s@;
        let (v, pid) = stash[k];
        assert(stash_view(stash@)[k as int] == (v as int, pid));
        s.queues[v].push_back(pid);
        k += 1;
        assert(s@ =~= before.with_queue(v as int, before.queues[v as int].push(pid)));
    }
}

fn find_pass(s: &mut Sched, h: usize, exclude: usize, skip: bool, now: u64) -> (r: Option<usize>)
    requires
        h < MAX_HART,
    ensures
        (final(s)@, r) == old(s)@.find_pass(h as int, exclude, 0, Seq::empty(), skip, now),
{
    let mut stash: Vec<(usize, usize)> = Vec::new();
    let mut off: usize = 0;
    assert(stash_view(stash@) =~= Seq::empty());
    while off < MAX_HART
        invariant
            h < MAX_HART,
            off <= MAX_HART,
            forall|i: int| 0 <= i < stash@.len() ==> (#[trigger] stash@[i]).0 < MAX_HART,
            s@.find_pass(h as int, exclude, off as int, stash_view(stash@), skip, now) == old(
                s,
            )@.find_pass(h as int, exclude, 0, Seq::empty(), skip, now),
        decreases MAX_HART - off,
    {
        let v: usize = (h + off) % MAX_HART;
        let ghost before = s@;
        let ghost st0 = stash_view(stash@);
        let mut q: VecDeque<usize> = VecDeque::new();
        std::mem::swap(&mut q, &mut s.queues[v]);
        assert(q@ == before.queues[v as int]);
        assert(s@.procs =~= before.procs);
        proof {
            lemma_scan_same(
                s@,
                before,
                h as int,
                exclude,
                v as int,
                before.queues[v as int],
                Seq::empty(),
                st0,
                skip,
                now,
            );
        }
        let found = scan_queue(s, h, exclude, v, &mut q, &mut stash, skip, now);
        s.queues[v] = q;
        assert(s@ =~= before.with_queue(v as int, q@));
        if let Some(pid) = found {
            if off > 0 {
                let ghost mid = s@;
                s.steals = s.steals.wrapping_add(1);
                assert(s@ =~= (SchedV { steals: mid.steals.wrapping_add(1), ..mid }));
            }
            unstash(s, &stash);
            return Some(pid);
        }
        off += 1;
    }
    unstash(s, &stash);
    None
}

pub fn find_next(s: &mut Sched, h: usize, exclude: usize, now: u64) -> (r: Option<usize>)
    requires
        h < MAX_HART,
    ensures
        (final(s)@, r) == old(s)@.find_next(h as int, exclude, now),
{
    if let Some(pid) = find_pass(s, h, exclude, true, now) {
        return Some(pid);
    }
    find_pass(s, h, exclude, false, now)
}

impl SchedV {
    /// Hart `h` leaves for the process found, or idles. A process that cannot
    /// run, or that another hart runs, is not entered.
    pub open spec fn switch(self, h: int, next: Option<usize>) -> (SchedV, Next) {
        match next {
            Some(pid) => if self.takeable(h, pid) {
                (self.running(h, pid), self.enter(pid))
            } else {
                (self, Next::Idle)
            },
            None => (self.idling(h), Next::Idle),
        }
    }
}

pub fn switch_to(s: &mut Sched, h: usize, next: Option<usize>) -> (n: Next)
    requires
        h < MAX_HART,
    ensures
        (final(s)@, n) == old(s)@.switch(h as int, next),
{
    match next {
        Some(pid) => {
            if takeable(s, h, pid) {
                make_running(s, h, pid)
            } else {
                Next::Idle
            }
        },
        None => {
            make_idle(s, h);
            Next::Idle
        },
    }
}

} // verus!
