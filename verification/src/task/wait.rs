//! Waiting for children and reaping them.
use crate::mem::frame;
use crate::mem::frame::Mem;
use crate::mem::space;
use crate::mem::teardown;
use crate::task::life;
use crate::task::proc;
use crate::task::state;
use crate::task::state::{ProcV, Sched, SchedV, State, BLOCK_WAIT, MAX_HART, REAPLOG};
use std::collections::VecDeque;
use vstd::prelude::*;

verus! {

/// Option bit: do not wait.
pub const WNOHANG: usize = 1;

/// The ids but `c`, in order.
pub open spec fn without(q: Seq<usize>, c: usize) -> Seq<usize>
    decreases q.len(),
{
    if q.len() == 0 {
        q
    } else {
        let r = without(q.drop_last(), c);
        if q.last() == c {
            r
        } else {
            r.push(q.last())
        }
    }
}

fn drop_queue(q: &VecDeque<usize>, c: usize) -> (r: VecDeque<usize>)
    ensures
        r@ == without(q@, c),
{
    let mut r: VecDeque<usize> = VecDeque::new();
    let mut i: usize = 0;
    assert(q@.take(0) =~= Seq::empty());
    while i < q.len()
        invariant
            i <= q@.len(),
            r@ == without(q@.take(i as int), c),
        decreases q@.len() - i,
    {
        proof {
            let t = q@.take(i + 1);
            assert(t.drop_last() =~= q@.take(i as int));
            assert(t.last() == q@[i as int]);
        }
        let x: usize = q[i];
        if x != c {
            r.push_back(x);
        }
        i += 1;
    }
    assert(q@.take(i as int) =~= q@);
    r
}

fn drop_id(q: &Vec<usize>, c: usize) -> (r: Vec<usize>)
    ensures
        r@ == without(q@, c),
{
    let mut r: Vec<usize> = Vec::new();
    let mut i: usize = 0;
    assert(q@.take(0) =~= Seq::empty());
    while i < q.len()
        invariant
            i <= q@.len(),
            r@ == without(q@.take(i as int), c),
        decreases q@.len() - i,
    {
        proof {
            let t = q@.take(i + 1);
            assert(t.drop_last() =~= q@.take(i as int));
            assert(t.last() == q@[i as int]);
        }
        let x: usize = q[i];
        if x != c {
            r.push(x);
        }
        i += 1;
    }
    assert(q@.take(i as int) =~= q@);
    r
}

impl SchedV {
    /// The waiter means child `c`: any child, its process id, or its id in the
    /// waiter's namespace.
    pub open spec fn child_named(self, wns: usize, target: i64, c: usize) -> bool {
        target <= 0 || c == target || (self.proc(c as int) matches Some(p) && p.ns == wns && p.lpid
            == target)
    }

    /// The first of the children from `i` on that is meant and has ended.
    pub open spec fn ended(self, wns: usize, target: i64, kids: Seq<usize>, i: int) -> Option<usize>
        decreases kids.len() - i,
    {
        if i < 0 || i >= kids.len() {
            None
        } else if self.child_named(wns, target, kids[i]) && (self.proc(kids[i] as int) matches Some(p)
            && p.state is Zombie) {
            Some(kids[i])
        } else {
            self.ended(wns, target, kids, i + 1)
        }
    }

    /// Some child that is meant exists.
    pub open spec fn awaited(self, wns: usize, target: i64, kids: Seq<usize>) -> bool {
        exists|i: int|
            0 <= i < kids.len() && self.child_named(wns, target, #[trigger] kids[i]) && self.proc(
                kids[i] as int,
            ) is Some
    }

    /// The ended child `c` of `pid` is gone: from the table, the queues and its
    /// parent's list; its exit code is the newest of those remembered.
    pub open spec fn reap(self, pid: int, c: usize) -> SchedV {
        let code = (self.procs[c as int]->0).exit_code;
        let s1 = SchedV {
            procs: self.procs.update(c as int, None),
            reaped: (if self.reaped.len() < REAPLOG {
                self.reaped
            } else {
                self.reaped.skip(1)
            }).push((c, code)),
            queues: Seq::new(self.queues.len(), |h: int| without(self.queues[h], c)),
            ..self
        };
        match s1.proc(pid) {
            Some(p) => s1.with_proc(pid, ProcV { children: without(p.children, c), ..p }),
            None => s1,
        }
    }

    /// The hart's process blocked until a child ends.
    pub open spec fn waiting(self, h: int) -> SchedV {
        match self.running_on(h) {
            Some(p) => if p.state is Running {
                self.with_proc(
                    self.current[h] as int,
                    ProcV { state: State::Blocked, blocked_on: BLOCK_WAIT, wake_at: 0, ..p },
                )
            } else {
                self
            },
            None => self,
        }
    }
}

pub fn child_matches(s: &Sched, wns: usize, target: i64, c: usize) -> (r: bool)
    ensures
        r == s@.child_named(wns, target, c),
{
    if target <= 0 {
        return true;
    }
    if c as u64 == target as u64 {
        return true;
    }
    if c < s.procs.len() {
        assert(s@.procs[c as int] == state::opt_proc(s.procs@[c as int]));
        if let Some(p) = &s.procs[c] {
            return p.ns == wns && p.lpid as u64 == target as u64;
        }
    }
    false
}

fn find_ended(s: &Sched, wns: usize, target: i64, kids: &Vec<usize>) -> (r: Option<usize>)
    ensures
        r == s@.ended(wns, target, kids@, 0),
        r matches Some(c) ==> s@.proc(c as int) is Some,
{
    let mut i: usize = 0;
    while i < kids.len()
        invariant
            i <= kids@.len(),
            s@.ended(wns, target, kids@, 0) == s@.ended(wns, target, kids@, i as int),
        decreases kids@.len() - i,
    {
        let c: usize = kids[i];
        if child_matches(s, wns, target, c) && c < s.procs.len() {
            assert(s@.procs[c as int] == state::opt_proc(s.procs@[c as int]));
            if let Some(p) = &s.procs[c] {
                if p.state == State::Zombie {
                    return Some(c);
                }
            }
        }
        i += 1;
    }
    None
}

fn any_awaited(s: &Sched, wns: usize, target: i64, kids: &Vec<usize>) -> (r: bool)
    ensures
        r == s@.awaited(wns, target, kids@),
{
    let mut i: usize = 0;
    while i < kids.len()
        invariant
            i <= kids@.len(),
            forall|j: int|
                0 <= j < i ==> !(s@.child_named(wns, target, #[trigger] kids@[j]) && s@.proc(
                    kids@[j] as int,
                ) is Some),
        decreases kids@.len() - i,
    {
        let c: usize = kids[i];
        if child_matches(s, wns, target, c) && c < s.procs.len() {
            assert(s@.procs[c as int] == state::opt_proc(s.procs@[c as int]));
            if s.procs[c].is_some() {
                assert(s@.child_named(wns, target, kids@[i as int]));
                return true;
            }
        }
        i += 1;
    }
    false
}

/// Takes an ended child out of the table; returns its memory and exit code.
fn reap(s: &mut Sched, pid: usize, c: usize) -> (r: (u64, u64, i32))
    requires
        old(s)@.wf(),
        old(s)@.proc(c as int) is Some,
    ensures
        final(s)@ == old(s)@.reap(pid as int, c),
        r.0 == (old(s)@.procs[c as int]->0).root,
        r.1 == (old(s)@.procs[c as int]->0).tf_pa,
        r.2 == (old(s)@.procs[c as int]->0).exit_code,
{
    let ghost s0 = s@;
    assert(s@.procs[c as int] == state::opt_proc(s.procs@[c as int]));
    let (root, tf, code) = match &s.procs[c] {
        Some(p) => (p.root, p.tf_pa, p.exit_code),
        None => (0, 0, 0),
    };
    s.procs.set(c, None);
    if s.reaped.len() >= REAPLOG {
        let _ = s.reaped.pop_front();
    }
    s.reaped.push_back((c, code));
    let ghost s1 = s@;
    let mut h: usize = 0;
    assert(s1.queues =~= s0.queues);
    assert(s1.procs =~= s0.procs.update(c as int, None));
    assert(s1.reaped =~= s0.reap(pid as int, c).reaped);
    while h < MAX_HART
        invariant
            h <= MAX_HART,
            s1.queues.len() == MAX_HART,
            s@ == (SchedV {
                queues: Seq::new(
                    MAX_HART as nat,
                    |i: int|
                        if i < h {
                            without(s1.queues[i], c)
                        } else {
                            s1.queues[i]
                        },
                ),
                ..s1
            }),
        decreases MAX_HART - h,
    {
        assert(s@.queues[h as int] == s.queues@[h as int]@);
        let ghost s2 = s@;
        let ghost qs = s.queues@;
        let q = drop_queue(&s.queues[h], c);
        let ghost qv = q@;
        s.queues[h] = q;
        h += 1;
        proof {
            assert forall|i: int| 0 <= i < MAX_HART implies #[trigger] s@.queues[i] == (if i < h {
                without(s1.queues[i], c)
            } else {
                s1.queues[i]
            }) by {
                assert(s2.queues[i] == qs[i]@);
                if i == h - 1 {
                    assert(s.queues@[i]@ == qv);
                } else {
                    assert(s.queues@[i] == qs[i]);
                }
            }
            assert(s@.queues =~= Seq::new(
                MAX_HART as nat,
                |i: int|
                    if i < h {
                        without(s1.queues[i], c)
                    } else {
                        s1.queues[i]
                    },
            ));
            assert(s@.procs =~= s2.procs);
        }
    }
    let ghost s3 = s@;
    assert(s3.queues =~= Seq::new(s0.queues.len(), |i: int| without(s0.queues[i], c)));
    if pid < s.procs.len() {
        assert(s@.procs[pid as int] == state::opt_proc(s.procs@[pid as int]));
        if let Some(p) = &mut s.procs[pid] {
            p.children = drop_id(&p.children, c);
        }
        proof {
            if s3.procs[pid as int] is Some {
                let q = s3.procs[pid as int]->0;
                assert(s@.procs[pid as int]->0 =~= ProcV { children: without(q.children, c), ..q });
                assert(s@.procs =~= s3.procs.update(
                    pid as int,
                    Some(ProcV { children: without(q.children, c), ..q }),
                ));
            } else {
                assert(s@.procs =~= s3.procs);
            }
            assert(s@.queues =~= s3.queues);
        }
    }
    assert(s@ =~= s0.reap(pid as int, c));
    (root, tf, code)
}

/// Waits for a child of `pid`: the one named by `target`, or any. An ended
/// child is reaped, its memory given back: its id and exit code. (-1, 0) when
/// there is none to wait for; (0, 0) when it has not ended and waiting is not
/// wanted; else (-2, 0), the hart's process blocked and a switch asked for.
#[verifier::spinoff_prover]
#[verifier::rlimit(60)]
pub fn waitpid(
    s: &mut Sched,
    m: &mut Mem,
    kroot: u64,
    pid: usize,
    target: i64,
    options: usize,
    h: usize,
) -> (r: (i32, i32))
    requires
        old(s)@.wf(),
        proc::mem_ok(old(s)@, old(m)@, kroot),
        h < MAX_HART,
    ensures
        final(s)@.wf(),
        proc::mem_ok(final(s)@, final(m)@, kroot),
        match old(s)@.proc(pid as int) {
            None => r == (NONE_LEFT, 0i32) && final(s)@ == old(s)@ && final(m)@ == old(m)@,
            Some(p) => match old(s)@.ended(p.ns, target, p.children, 0) {
                Some(c) => {
                    let q = old(s)@.procs[c as int]->0;
                    &&& r == (c as i32, q.exit_code)
                    &&& final(s)@ == old(s)@.reap(pid as int, c)
                    &&& forall|t: u64| #[trigger]
                        final(m)@.free(t) <==> old(m)@.free(t) || space::owns(old(m)@, q.root, t) || t
                            == q.tf_pa
                    &&& forall|t: u64|
                        frame::in_ram(t) && !final(m)@.free(t) ==> #[trigger] final(m)@.ram[frame::fi(t)]
                            == old(m)@.ram[frame::fi(t)]
                },
                None => {
                    &&& final(m)@ == old(m)@
                    &&& if !old(s)@.awaited(p.ns, target, p.children) {
                        r == (NONE_LEFT, 0i32) && final(s)@ == old(s)@
                    } else if options & WNOHANG != 0 {
                        r == (0i32, 0i32) && final(s)@ == old(s)@
                    } else {
                        r == (TRY_AGAIN, 0i32) && final(s)@ == (SchedV {
                            yield_flag: old(s)@.yield_flag.update(h as int, true),
                            ..old(s)@.waiting(h as int)
                        })
                    }
                },
            },
        },
{
    let ghost s0 = s@;
    let ghost m0 = m@;
    if pid >= s.procs.len() {
        return (NONE_LEFT, 0);
    }
    assert(s@.procs[pid as int] == state::opt_proc(s.procs@[pid as int]));
    let (kids, wns) = match &s.procs[pid] {
        Some(p) => (life::clone_ids(&p.children), p.ns),
        None => {
            return (NONE_LEFT, 0);
        },
    };
    if let Some(c) = find_ended(s, wns, target, &kids) {
        let (root, tf, code) = reap(s, pid, c);
        proof {
            assert(proc::held(s0, c as int) == Some((root, tf)));
            assert(proc::one_ok(m0, kroot, (root, tf)));
        }
        teardown::free_user_space(m, root);
        let ghost m1 = m@;
        proof {
            crate::mem::teardown::lemma_back_owns(m0, root, tf);
            let back = |t: u64| teardown::gives_back(m0, root, t);
            assert(m1.free(tf) <==> m0.free(tf) || back(tf));
        }
        frame::dealloc_frame(m, tf);
        proof {
            assert(proc::held(s@, c as int) is None);
            assert forall|i: int| i != c implies #[trigger] proc::held(s@, i) == proc::held(s0, i) by {}
            proc::lemma_mem_leave(s0, s@, m0, m1, m@, kroot, c as int);
        }
        return (c as i32, code);
    }
    if !any_awaited(s, wns, target, &kids) {
        return (NONE_LEFT, 0);
    }
    if options & WNOHANG != 0 {
        return (0, 0);
    }
    life::block_current(s, h, BLOCK_WAIT, 0);
    life::yield_now(s, h);
    proof {
        assert(s@ == (SchedV {
            yield_flag: s0.yield_flag.update(h as int, true),
            ..s0.waiting(h as int)
        }));
        assert forall|i: int| #[trigger] proc::held(s@, i) == proc::held(s0, i) by {}
        proc::lemma_mem_same(s0, s@, m0, kroot);
    }
    (TRY_AGAIN, 0)
}

pub const NONE_LEFT: i32 = -1;

pub const TRY_AGAIN: i32 = -2;

/// Waits for any child.
pub fn wait(s: &mut Sched, m: &mut Mem, kroot: u64, pid: usize, h: usize) -> (r: (i32, i32))
    requires
        old(s)@.wf(),
        proc::mem_ok(old(s)@, old(m)@, kroot),
        h < MAX_HART,
    ensures
        final(s)@.wf(),
        proc::mem_ok(final(s)@, final(m)@, kroot),
        match old(s)@.proc(pid as int) {
            None => r == (NONE_LEFT, 0i32) && final(s)@ == old(s)@ && final(m)@ == old(m)@,
            Some(p) => match old(s)@.ended(p.ns, ANY_CHILD, p.children, 0) {
                Some(c) => {
                    let q = old(s)@.procs[c as int]->0;
                    &&& r == (c as i32, q.exit_code)
                    &&& final(s)@ == old(s)@.reap(pid as int, c)
                    &&& forall|t: u64| #[trigger]
                        final(m)@.free(t) <==> old(m)@.free(t) || space::owns(old(m)@, q.root, t) || t
                            == q.tf_pa
                    &&& forall|t: u64|
                        frame::in_ram(t) && !final(m)@.free(t) ==> #[trigger] final(m)@.ram[frame::fi(t)]
                            == old(m)@.ram[frame::fi(t)]
                },
                None => {
                    &&& final(m)@ == old(m)@
                    &&& if !old(s)@.awaited(p.ns, ANY_CHILD, p.children) {
                        r == (NONE_LEFT, 0i32) && final(s)@ == old(s)@
                    } else {
                        r == (TRY_AGAIN, 0i32) && final(s)@ == (SchedV {
                            yield_flag: old(s)@.yield_flag.update(h as int, true),
                            ..old(s)@.waiting(h as int)
                        })
                    }
                },
            },
        },
{
    assert(0usize & WNOHANG == 0) by (bit_vector);
    waitpid(s, m, kroot, pid, ANY_CHILD, 0, h)
}

pub const ANY_CHILD: i64 = -1;

/// The child that a wait would reap.
pub fn ended_child(s: &Sched, pid: usize) -> (r: Option<usize>)
    ensures
        r == match s@.proc(pid as int) {
            Some(p) => s@.ended(p.ns, ANY_CHILD, p.children, 0),
            None => None,
        },
        r matches Some(c) ==> s@.proc(c as int) is Some,
{
    if pid >= s.procs.len() {
        return None;
    }
    assert(s@.procs[pid as int] == state::opt_proc(s.procs@[pid as int]));
    match &s.procs[pid] {
        Some(p) => find_ended(s, p.ns, ANY_CHILD, &p.children),
        None => None,
    }
}

} // verus!
