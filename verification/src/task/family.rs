//! What a process has from its parent, keeps over a new program, leaves behind
//! when it ends, and who hears of it.
use crate::mem::frame;
use crate::mem::frame::{MemV, WORDS};
use crate::mem::space;
use crate::mem::space::VA_END;
use crate::task::image;
use crate::task::life;
use crate::task::proc;
use crate::task::sched::{self, Next};
use crate::task::state::{Fd, ProcV, SchedV, BLOCK_SLEEP, MAX_HART, NFD, REAPLOG};
use crate::task::wait;
use vstd::prelude::*;

verus! {

/// Both descriptors refer to the same thing at the same place.
pub open spec fn same_fd(a: Fd, b: Fd) -> bool {
    a.kind == b.kind && a.id == b.id && a.off == b.off && a.path == b.path && a.cloexec == b.cloexec
}

/// No hart runs the process.
pub open spec fn off_hart(s: SchedV, pid: usize) -> bool {
    forall|k: int| 0 <= k < MAX_HART ==> #[trigger] s.current[k] != pid
}

/// The process stands at the back of hart `h`'s queue, and no queue changed
/// otherwise.
pub open spec fn queued_last(a: SchedV, b: SchedV, h: int, pid: usize) -> bool {
    &&& b.queues.len() == a.queues.len()
    &&& b.queues[h] == a.queues[h].push(pid)
    &&& forall|v: int| 0 <= v < a.queues.len() && v != h ==> #[trigger] b.queues[v] == a.queues[v]
}

/// The first namespace that is free has a number of its own and nobody in it.
proof fn lemma_free_ns(s: SchedV, from: int)
    requires
        1 <= from,
        s.ns.len() >= 1,
    ensures
        1 <= from <= s.free_ns(from),
        s.free_ns(from) <= s.ns.len() || s.free_ns(from) == from,
        s.free_ns(from) < s.ns.len() ==> !s.ns_used(s.free_ns(from)),
    decreases s.ns.len() - from,
{
    if !(from >= s.ns.len() || !s.ns_used(from)) {
        lemma_free_ns(s, from + 1);
    }
}

/// A forked child has every descriptor of its parent, at the same offset, and
/// its directories, name, group, break and mappings; it is new in all else. The
/// parent has it as its last child, and every other process is as before.
pub proof fn law_fork_inherits(
    s0: SchedV,
    m0: MemV,
    s: SchedV,
    m: MemV,
    kroot: u64,
    parent: usize,
    h: int,
    now: u64,
    r: usize,
)
    requires
        s0.wf(),
        0 <= h < MAX_HART,
        parent < s0.procs.len(),
        s0.procs[parent as int] is Some,
        s0.next_pid < usize::MAX,
        proc::fork_done(s0, m0, s, m, kroot, parent, h, now, r),
        r != usize::MAX,
    ensures
        r == s0.next_pid,
        s.next_pid == r + 1,
        r >= s0.procs.len(),
        s.procs.len() == r + 1,
        s.procs[r as int] is Some,
        s.procs[parent as int] is Some,
        ({
            let p = s0.procs[parent as int]->0;
            let c = s.procs[r as int]->0;
            let q = s.procs[parent as int]->0;
            &&& c.fds.len() == NFD
            &&& forall|i: int| 0 <= i < NFD ==> same_fd(#[trigger] c.fds[i], p.fds[i])
            &&& c.cwd == p.cwd && c.fsroot == p.fsroot && c.name == p.name && c.cg == p.cg
            &&& c.brk == p.brk && c.brk_min == p.brk_min && c.mmap_base == p.mmap_base
            &&& c.pid == r && c.parent == parent && c.children.len() == 0
            &&& c.state is Runnable && c.exit_code == 0 && !c.killed && c.kill_code == -9
            &&& c.blocked_on == 0 && c.wake_at == 0 && !c.traced && !c.pending_ns && c.start_ms == now
            &&& q == (ProcV { children: p.children.push(r), pending_ns: false, ..p })
            &&& forall|i: int|
                0 <= i < s0.procs.len() && i != parent ==> #[trigger] s.procs[i] == s0.procs[i]
            &&& off_hart(s0, r) ==> queued_last(s0, s, h, r)
            &&& s.current == s0.current && s.cpu == s0.cpu && s.cg == s0.cg && s.reaped == s0.reaped
        }),
{
    let t = s0.reserved();
    let p = s0.procs[parent as int]->0;
    assert(t.procs[parent as int] == s0.procs[parent as int]);
    lemma_free_ns(t, 1);
    let (s1, ns, lpid) = t.placed(parent as int, p, r);
    assert(s1.queues == s0.queues);
    assert(s1.current == s0.current);
    let c = s.procs[r as int]->0;
    assert(c.fds == p.fds);
    assert forall|k: int| 0 <= k < MAX_HART implies #[trigger] s1.current[k] == s0.current[k] by {}
    assert(s1.is_current(r) == !off_hart(s0, r));
}

/// A child gets its number from its namespace's count; the first child after
/// an unshare is number 1 of a namespace that nobody else is in.
pub proof fn law_fork_numbers(
    s0: SchedV,
    m0: MemV,
    s: SchedV,
    m: MemV,
    kroot: u64,
    parent: usize,
    h: int,
    now: u64,
    r: usize,
)
    requires
        s0.wf(),
        0 <= h < MAX_HART,
        parent < s0.procs.len(),
        s0.procs[parent as int] is Some,
        s0.next_pid < usize::MAX,
        s0.ns.len() < usize::MAX,
        forall|i: int| 0 <= i < s0.ns.len() ==> (#[trigger] s0.ns[i]).next < usize::MAX,
        proc::fork_done(s0, m0, s, m, kroot, parent, h, now, r),
        r != usize::MAX,
    ensures
        ({
            let p = s0.procs[parent as int]->0;
            let c = s.procs[r as int]->0;
            &&& p.pending_ns ==> {
                &&& c.lpid == 1
                &&& 1 <= c.ns < s.ns.len()
                &&& s.ns[c.ns as int].parent == p.ns
                &&& s.ns[c.ns as int].next == 2
                &&& forall|i: int|
                    0 <= i < s0.procs.len() && s0.procs[i] is Some ==> (#[trigger] s0.procs[i]->0).ns != c.ns
            }
            &&& !p.pending_ns && p.ns == 0 ==> c.ns == 0 && c.lpid == r && s.ns == s0.ns
            &&& !p.pending_ns && p.ns != 0 ==> {
                &&& c.ns == p.ns
                &&& c.lpid == s0.ns[p.ns as int].next
                &&& s.ns.len() == s0.ns.len()
                &&& s.ns[p.ns as int].next == c.lpid + 1
            }
        }),
{
    let t = s0.reserved();
    let p = s0.procs[parent as int]->0;
    assert(t.procs[parent as int] == s0.procs[parent as int]);
    lemma_free_ns(t, 1);
    let n = t.free_ns(1);
    assert(t.ns == s0.ns);
    assert(s0.ns[p.ns as int].next < usize::MAX);
    if p.pending_ns {
        assert forall|i: int| 0 <= i < s0.procs.len() && s0.procs[i] is Some implies (#[trigger] s0.procs[i]->0).ns
            != n by {
            assert(t.procs[i] == s0.procs[i]);
            assert(s0.procs[i] matches Some(x) && x.ns < s0.ns.len());
            if (s0.procs[i]->0).ns == n {
                assert(t.ns_used(n));
            }
        }
    }
}

/// A forked child's memory holds its parent's bytes, with the same rights, and
/// its registers are its parent's but for the result, which is 0.
pub proof fn law_fork_copies(
    s0: SchedV,
    m0: MemV,
    s: SchedV,
    m: MemV,
    kroot: u64,
    parent: usize,
    h: int,
    now: u64,
    r: usize,
)
    requires
        s0.wf(),
        parent < s0.procs.len(),
        s0.procs[parent as int] is Some,
        m0.ram[frame::fi((s0.procs[parent as int]->0).tf_pa)].len() == WORDS,
        proc::fork_done(s0, m0, s, m, kroot, parent, h, now, r),
        r != usize::MAX,
    ensures
        ({
            let p = s0.procs[parent as int]->0;
            let c = s.procs[r as int]->0;
            let a = m0.ram[frame::fi(p.tf_pa)];
            let b = m.ram[frame::fi(c.tf_pa)];
            &&& b.len() == a.len()
            &&& b[10] == 0
            &&& forall|i: int| 0 <= i < a.len() && i != 10 ==> #[trigger] b[i] == a[i]
            &&& forall|va: u64|
                va < VA_END ==> #[trigger] space::umem(m, c.root, va) == space::umem(m0, p.root, va)
            &&& forall|va: u64|
                va < VA_END ==> #[trigger] image::uflags(m, c.root, va) == image::uflags(m0, p.root, va)
        }),
{
}

/// A spawned process has what its parent's descriptors refer to, from the
/// start of each, and its parent's directories; it is its parent's last child,
/// and every other process is as before.
pub proof fn law_spawn_passes(
    s0: SchedV,
    pid: usize,
    parent: usize,
    root: u64,
    tf: u64,
    name: Seq<u8>,
    brk: u64,
    h: int,
    now: u64,
)
    requires
        s0.wf(),
        0 <= h < MAX_HART,
        parent != 0,
        parent != pid,
        parent < s0.procs.len(),
        pid < s0.procs.len(),
        s0.procs[parent as int] is Some,
    ensures
        ({
            let s = s0.spawned(pid, parent, root, tf, name, brk, h, now);
            let p = s0.procs[parent as int]->0;
            let c = s.procs[pid as int]->0;
            &&& s.procs[pid as int] is Some
            &&& c.fds.len() == NFD
            &&& forall|i: int|
                0 <= i < NFD ==> (#[trigger] c.fds[i]).kind == p.fds[i].kind && c.fds[i].id == p.fds[i].id
                    && c.fds[i].off == 0 && c.fds[i].path == 0 && !c.fds[i].cloexec
            &&& c.cwd == p.cwd && c.fsroot == p.fsroot
            &&& c.name.len() <= 31 && c.name == name.take(c.name.len() as int)
            &&& c.name.len() == name.len() || c.name.len() == 31
            &&& c.pid == pid && c.parent == parent && c.children.len() == 0
            &&& c.state is Runnable && c.exit_code == 0 && !c.killed && c.kill_code == -9
            &&& c.root == root && c.tf_pa == tf && c.brk == brk && c.brk_min == brk
            &&& c.mmap_base == 0x6fff_8000
            &&& c.cg == 0 && c.ns == 0 && c.lpid == pid && c.start_ms == now
            &&& s.procs[parent as int] == Some(ProcV { children: p.children.push(pid), ..p })
            &&& forall|i: int|
                0 <= i < s0.procs.len() && i != parent && i != pid ==> #[trigger] s.procs[i] == s0.procs[i]
            &&& off_hart(s0, pid) ==> queued_last(s0, s, h, pid)
        }),
{
    let s = s0.spawned(pid, parent, root, tf, name, brk, h, now);
    let p = s0.procs[parent as int]->0;
    assert((s.procs[pid as int]->0).fds == proc::passed_fds(p.fds));
}

/// The first process has the console for input, output and errors, and nothing
/// else; it starts at the root.
pub proof fn law_first_process_has_the_console(
    s0: SchedV,
    pid: usize,
    root: u64,
    tf: u64,
    name: Seq<u8>,
    brk: u64,
    h: int,
    now: u64,
)
    requires
        s0.wf(),
        0 <= h < MAX_HART,
        0 < pid < s0.procs.len(),
    ensures
        ({
            let c = s0.spawned(pid, 0, root, tf, name, brk, h, now).procs[pid as int]->0;
            &&& c.fds.len() == NFD
            &&& c.fds[0].kind == 1 && c.fds[1].kind == 2 && c.fds[2].kind == 2
            &&& forall|i: int| 3 <= i < NFD ==> (#[trigger] c.fds[i]).kind == 0
            &&& c.cwd == seq![0x2fu8] && c.fsroot == seq![0x2fu8]
            &&& c.parent == 0 && c.state is Runnable
        }),
{
}

/// Over a new program a process keeps its number, family, directories, group
/// and the descriptors not marked to close; those marked refer to nothing.
/// Nobody else changes, and no queue.
pub proof fn law_exec_keeps(
    s0: SchedV,
    m0: MemV,
    s: SchedV,
    m: MemV,
    pid: usize,
    data: Seq<u8>,
    av: Seq<Seq<u8>>,
    env: Seq<Seq<u8>>,
    ksp: u64,
)
    requires
        s0.wf(),
        pid < s0.procs.len(),
        s0.procs[pid as int] is Some,
        m0.ram[frame::fi((s0.procs[pid as int]->0).tf_pa)].len() == WORDS,
        proc::exec_done(s0, m0, s, m, pid, data, av, env, ksp),
    ensures
        s.procs[pid as int] is Some,
        s.procs.len() == s0.procs.len(),
        s.queues == s0.queues,
        s.current == s0.current,
        ({
            let p = s0.procs[pid as int]->0;
            let q = s.procs[pid as int]->0;
            &&& q.fds.len() == NFD
            &&& forall|i: int| 0 <= i < NFD && !p.fds[i].cloexec ==> same_fd(#[trigger] q.fds[i], p.fds[i])
            &&& forall|i: int| 0 <= i < NFD && p.fds[i].cloexec ==> (#[trigger] q.fds[i]).kind == 0
            &&& q == (ProcV {
                fds: q.fds,
                root: q.root,
                brk: q.brk,
                brk_min: q.brk,
                mmap_base: 0x6fff_8000,
                ..p
            })
            &&& forall|i: int| 0 <= i < s0.procs.len() && i != pid ==> #[trigger] s.procs[i] == s0.procs[i]
            &&& forall|i: int| 3 <= i < 32 ==> #[trigger] m.ram[frame::fi(p.tf_pa)][i] == 0
            &&& m.ram[frame::fi(p.tf_pa)][33] == data[0x18] + data[0x19]
                * 0x100 + data[0x1a] * 0x1_0000 + data[0x1b] * 0x100_0000 + data[0x1c] * 0x1_0000_0000 + data[0x1d]
                * 0x100_0000_0000 + data[0x1e] * 0x1_0000_0000_0000 + data[0x1f] * 0x100_0000_0000_0000
        }),
{
    let p = s0.procs[pid as int]->0;
    let q = s.procs[pid as int]->0;
    assert(q.fds == proc::closed_fds(p.fds));
}

// ---- waking ----

proof fn lemma_wake_one(s: SchedV, pid: int, h: int)
    requires
        s.queues.len() == MAX_HART,
        s.current.len() == MAX_HART,
        0 <= h < MAX_HART,
        0 <= pid < s.procs.len(),
        pid <= usize::MAX,
        s.procs[pid] matches Some(p) && p.state is Blocked,
    ensures
        ({
            let t = s.wake(pid, h);
            let p = s.procs[pid]->0;
            &&& t.procs[pid] matches Some(q) && q.state is Runnable && q == (ProcV {
                state: q.state,
                blocked_on: 0,
                ..p
            })
            &&& t.procs.len() == s.procs.len()
            &&& forall|i: int| 0 <= i < s.procs.len() && i != pid ==> #[trigger] t.procs[i] == s.procs[i]
            &&& off_hart(s, pid as usize) ==> queued_last(s, t, h, pid as usize)
            &&& !off_hart(s, pid as usize) ==> t.queues == s.queues
            &&& t.current == s.current
        }),
{
    assert(s.is_current(pid as usize) == !off_hart(s, pid as usize));
}

/// The process sleeps for this reason and, where it sleeps until a tick, that
/// tick has come.
pub open spec fn due(s: SchedV, i: int, reason: u8, now: u64) -> bool {
    s.procs[i] matches Some(p) && p.state is Blocked && p.blocked_on == reason && (reason == BLOCK_SLEEP ==> now
        >= p.wake_at)
}

/// Waking for a reason makes everyone who sleeps for it ready, in the queue if
/// no hart holds them, and touches nobody else.
pub proof fn law_everyone_due_wakes(s: SchedV, upto: int, reason: u8, h: int, now: u64)
    requires
        s.wf(),
        0 <= h < MAX_HART,
        0 <= upto <= s.procs.len(),
    ensures
        ({
            let t = s.wake_all(upto, reason, h, now).0;
            &&& t.procs.len() == s.procs.len()
            &&& t.queues.len() == MAX_HART
            &&& t.current == s.current
            &&& t.queues[h].len() >= s.queues[h].len()
            &&& t.queues[h].take(s.queues[h].len() as int) == s.queues[h]
            &&& forall|i: int|
                #![trigger t.procs[i]]
                0 <= i < upto && due(s, i, reason, now) ==> t.procs[i] is Some && (t.procs[i]->0).state is Runnable
                    && (t.procs[i]->0).blocked_on == 0 && (off_hart(s, i as usize) ==> t.queues[h].contains(i as usize))
            &&& forall|i: int|
                #![trigger t.procs[i]]
                0 <= i < s.procs.len() && !(i < upto && due(s, i, reason, now)) ==> t.procs[i] == s.procs[i]
            &&& forall|v: int| 0 <= v < MAX_HART && v != h ==> #[trigger] t.queues[v] == s.queues[v]
        }),
    decreases upto,
{
    if upto > 0 {
        let u = s.wake_all(upto - 1, reason, h, now).0;
        law_everyone_due_wakes(s, upto - 1, reason, h, now);
        let t = s.wake_all(upto, reason, h, now).0;
        let j = upto - 1;
        assert(u.procs[j] == s.procs[j]);
        if due(s, j, reason, now) {
            lemma_wake_one(u, j, h);
            assert(off_hart(u, j as usize) == off_hart(s, j as usize));
            if off_hart(s, j as usize) {
                assert(t.queues[h][u.queues[h].len() as int] == j);
                assert(t.queues[h].take(s.queues[h].len() as int) =~= s.queues[h]) by {
                    assert(u.queues[h].take(s.queues[h].len() as int) == s.queues[h]);
                    assert forall|x: int| 0 <= x < s.queues[h].len() implies t.queues[h][x] == s.queues[h][x] by {
                        assert(u.queues[h].take(s.queues[h].len() as int)[x] == u.queues[h][x]);
                    }
                }
            }
            assert forall|i: int| 0 <= i < upto && due(s, i, reason, now) && off_hart(
                s,
                i as usize,
            ) implies t.queues[h].contains(i as usize) by {
                if i < j {
                    assert(u.procs[i] is Some);
                    assert(u.queues[h].contains(i as usize));
                    let x = choose|x: int| 0 <= x < u.queues[h].len() && u.queues[h][x] == i as usize;
                    assert(t.queues[h][x] == i as usize);
                }
            }
        }
    } else {
        assert(s.queues[h].take(s.queues[h].len() as int) =~= s.queues[h]);
    }
}

// ---- killing ----

/// A kill marks a process that has not ended, with the code, and makes it ready
/// if it slept; a process that has ended or is not there is left alone. Nobody
/// else changes.
pub proof fn law_kill_marks(s: SchedV, pid: usize, code: i32, h: int)
    requires
        s.wf(),
        0 <= h < MAX_HART,
    ensures
        ({
            let (t, ok) = s.kill_with(pid as int, code, h);
            &&& ok <==> pid < s.procs.len() && s.procs[pid as int] is Some && !((s.procs[pid as int]->0).state is Zombie)
            &&& !ok ==> t == s
            &&& ok ==> {
                let p = s.procs[pid as int]->0;
                let q = t.procs[pid as int]->0;
                &&& t.procs[pid as int] is Some
                &&& q.killed && q.kill_code == code
                &&& if p.state is Blocked {
                    q.state is Runnable && q.blocked_on == 0 && (off_hart(s, pid) ==> queued_last(s, t, h, pid))
                } else {
                    q.state == p.state && q.blocked_on == p.blocked_on && t.queues == s.queues
                }
                &&& q == (ProcV {
                    killed: true,
                    kill_code: code,
                    state: q.state,
                    blocked_on: q.blocked_on,
                    ..p
                })
            }
            &&& t.procs.len() == s.procs.len()
            &&& forall|i: int| 0 <= i < s.procs.len() && i != pid ==> #[trigger] t.procs[i] == s.procs[i]
        }),
{
    if pid < s.procs.len() && s.procs[pid as int] is Some && !((s.procs[pid as int]->0).state is Zombie) {
        let p = s.procs[pid as int]->0;
        let u = s.with_proc(pid as int, ProcV { killed: true, kill_code: code, ..p });
        if p.state is Blocked {
            lemma_wake_one(u, pid as int, h);
            assert(off_hart(u, pid) == off_hart(s, pid));
        }
    }
}

/// A caller's name for a process is its number in the caller's own namespace,
/// where one has that number.
pub proof fn law_names_are_local(s: SchedV, h: int, pid: usize)
    requires
        s.wf(),
        0 <= h < MAX_HART,
        s.current[h] < s.procs.len(),
        s.procs[s.current[h] as int] is Some,
        s.procs.len() <= usize::MAX,
    ensures
        ({
            let ns = (s.procs[s.current[h] as int]->0).ns;
            let t = s.target(h, pid);
            &&& (exists|i: int|
                0 <= i < s.procs.len() && #[trigger] s.procs[i] is Some && (s.procs[i]->0).ns == ns && (
                s.procs[i]->0).lpid == pid) ==> t < s.procs.len() && s.procs[t as int] is Some && (
            s.procs[t as int]->0).ns == ns && (s.procs[t as int]->0).lpid == pid
            &&& (forall|i: int|
                0 <= i < s.procs.len() && #[trigger] s.procs[i] is Some ==> !((s.procs[i]->0).ns == ns && (
                s.procs[i]->0).lpid == pid)) ==> t == pid
        }),
{
    lemma_by_lpid(s, (s.procs[s.current[h] as int]->0).ns, pid, 0);
}

proof fn lemma_by_lpid(s: SchedV, ns: usize, pid: usize, from: int)
    requires
        0 <= from,
    ensures
        match s.by_lpid(ns, pid, from) {
            Some(i) => from <= i < s.procs.len() && s.procs[i] is Some && (s.procs[i]->0).ns == ns && (
            s.procs[i]->0).lpid == pid,
            None => forall|i: int|
                from <= i < s.procs.len() && #[trigger] s.procs[i] is Some ==> !((s.procs[i]->0).ns == ns && (
                s.procs[i]->0).lpid == pid),
        },
    decreases s.procs.len() - from,
{
    if from < s.procs.len() {
        lemma_by_lpid(s, ns, pid, from + 1);
    }
}

// ---- reaping ----

proof fn lemma_without(q: Seq<usize>, c: usize, x: usize)
    ensures
        !wait::without(q, c).contains(c),
        x != c ==> (wait::without(q, c).contains(x) <==> q.contains(x)),
    decreases q.len(),
{
    if q.len() > 0 {
        let d = q.drop_last();
        lemma_without(d, c, x);
        let r = wait::without(d, c);
        if q.contains(x) {
            let i = choose|i: int| 0 <= i < q.len() && q[i] == x;
            if i < q.len() - 1 {
                assert(d[i] == x);
            }
        }
        if d.contains(x) {
            let i = choose|i: int| 0 <= i < d.len() && d[i] == x;
            assert(q[i] == x);
        }
        if q.last() != c {
            let w = r.push(q.last());
            assert(w[w.len() - 1] == q.last());
            if r.contains(x) {
                let i = choose|i: int| 0 <= i < r.len() && r[i] == x;
                assert(w[i] == x);
            }
            if w.contains(x) {
                let i = choose|i: int| 0 <= i < w.len() && w[i] == x;
                if i < r.len() {
                    assert(r[i] == x);
                } else {
                    assert(q[q.len() - 1] == x);
                }
            }
            if w.contains(c) {
                let i = choose|i: int| 0 <= i < w.len() && w[i] == c;
                if i < r.len() {
                    assert(r[i] == c);
                }
            }
        }
    } else {
        assert(wait::without(q, c) == q);
    }
}

/// Reaping takes the child out of the table, of every queue and of its
/// parent's children, remembers its code, and leaves everyone else alone.
pub proof fn law_reaped_child_is_gone(s: SchedV, pid: usize, c: usize, x: usize)
    requires
        s.wf(),
        pid < s.procs.len(),
        c < s.procs.len(),
        pid != c,
        s.procs[pid as int] is Some,
        s.procs[c as int] is Some,
    ensures
        ({
            let t = s.reap(pid as int, c);
            let p = s.procs[pid as int]->0;
            let q = t.procs[pid as int]->0;
            &&& t.procs[c as int] is None
            &&& t.procs[pid as int] is Some
            &&& q == (ProcV { children: q.children, ..p })
            &&& !q.children.contains(c)
            &&& x != c ==> (q.children.contains(x) <==> p.children.contains(x))
            &&& forall|i: int|
                0 <= i < s.procs.len() && i != pid && i != c ==> #[trigger] t.procs[i] == s.procs[i]
            &&& forall|h: int| 0 <= h < MAX_HART ==> !(#[trigger] t.queues[h]).contains(c)
            &&& x != c ==> forall|h: int|
                0 <= h < MAX_HART ==> ((#[trigger] t.queues[h]).contains(x) <==> s.queues[h].contains(x))
            &&& t.reaped.len() >= 1 && t.reaped.last() == (c, (s.procs[c as int]->0).exit_code)
            &&& s.reaped.len() < REAPLOG ==> t.reaped.drop_last() == s.reaped
        }),
{
    let t = s.reap(pid as int, c);
    let p = s.procs[pid as int]->0;
    lemma_without(p.children, c, x);
    assert forall|h: int| 0 <= h < MAX_HART implies !(#[trigger] t.queues[h]).contains(c) && (x != c ==> (
    t.queues[h].contains(x) <==> s.queues[h].contains(x))) by {
        lemma_without(s.queues[h], c, x);
    }
    if s.reaped.len() < REAPLOG {
        assert(t.reaped.drop_last() =~= s.reaped);
    }
}

/// A waiter means the child: any will do, or the number is the child's own or
/// its number in the waiter's namespace.
pub open spec fn meant(s: SchedV, ns: usize, target: i64, c: usize) -> bool {
    target <= 0 || c == target || (c < s.procs.len() && s.procs[c as int] is Some && (s.procs[c as int]->0).ns == ns
        && (s.procs[c as int]->0).lpid == target)
}

/// Child `i` of the list is meant and has ended.
pub open spec fn over(s: SchedV, ns: usize, target: i64, kids: Seq<usize>, i: int) -> bool {
    meant(s, ns, target, kids[i]) && kids[i] < s.procs.len() && s.procs[kids[i] as int] is Some && (
    s.procs[kids[i] as int]->0).state is Zombie
}

/// What a wait finds is the first child in order that is meant and has ended;
/// it finds none just where there is none.
pub proof fn law_first_ended_child_is_found(s: SchedV, ns: usize, target: i64, kids: Seq<usize>, from: int)
    requires
        0 <= from <= kids.len(),
    ensures
        match s.ended(ns, target, kids, from) {
            Some(c) => exists|i: int|
                from <= i < kids.len() && kids[i] == c && #[trigger] over(s, ns, target, kids, i) && (forall|j: int|
                    from <= j < i ==> !#[trigger] over(s, ns, target, kids, j)),
            None => forall|j: int| from <= j < kids.len() ==> !#[trigger] over(s, ns, target, kids, j),
        },
    decreases kids.len() - from,
{
    if from < kids.len() {
        law_first_ended_child_is_found(s, ns, target, kids, from + 1);
        if over(s, ns, target, kids, from) {
            assert(s.ended(ns, target, kids, from) == Some(kids[from]));
        } else if s.ended(ns, target, kids, from) is Some {
            let i = choose|i: int|
                from + 1 <= i < kids.len() && kids[i] == s.ended(ns, target, kids, from)->0 && #[trigger] over(
                    s,
                    ns,
                    target,
                    kids,
                    i,
                ) && (forall|j: int| from + 1 <= j < i ==> !#[trigger] over(s, ns, target, kids, j));
            assert(over(s, ns, target, kids, i));
        }
    }
}

// ---- ending ----

/// The parent and state of every process but those named are the same.
pub proof fn lemma_reparent(s: SchedV, kids: Seq<usize>, n: int, x: int)
    requires
        0 <= n <= kids.len(),
    ensures
        ({
            let t = life::reparent(s, kids, n);
            &&& t.procs.len() == s.procs.len()
            &&& t == (SchedV { procs: t.procs, ..s })
            &&& 0 <= x < s.procs.len() && s.procs[x] is None ==> t.procs[x] is None
            &&& 0 <= x < s.procs.len() && s.procs[x] is Some ==> {
                let p = s.procs[x]->0;
                let q = t.procs[x]->0;
                &&& t.procs[x] is Some
                &&& q == (ProcV { parent: q.parent, children: q.children, ..p })
                &&& q.parent == 1 || q.parent == p.parent
                &&& (exists|i: int| 0 <= i < n && #[trigger] kids[i] == x) ==> q.parent == 1 && (1 < s.procs.len()
                    && s.procs[1] is Some ==> (t.procs[1]->0).children.contains(x as usize))
                &&& (forall|i: int| 0 <= i < n ==> #[trigger] kids[i] != x) ==> q.parent == p.parent
                &&& x != 1 ==> q.children == p.children
            }
        }),
    decreases n,
{
    if n > 0 {
        lemma_reparent(s, kids, n - 1, x);
        lemma_reparent(s, kids, n - 1, kids[n - 1] as int);
        lemma_reparent(s, kids, n - 1, 1);
        let u = life::reparent(s, kids, n - 1);
        let t = life::reparent(s, kids, n);
        let c = kids[n - 1];
        if 0 <= x < s.procs.len() && s.procs[x] is Some {
            if 1 < s.procs.len() && s.procs[1] is Some {
                let a = (u.procs[1]->0).children;
                let b = (t.procs[1]->0).children;
                assert(b == a || b == a.push(c));
                if a.contains(x as usize) {
                    let i = choose|i: int| 0 <= i < a.len() && a[i] == x as usize;
                    assert(b[i] == x as usize);
                }
                if c == x {
                    assert(b.contains(x as usize)) by {
                        if b == a.push(c) {
                            assert(b[a.len() as int] == c);
                        }
                    }
                }
            }
            if (exists|i: int| 0 <= i < n && #[trigger] kids[i] == x) && c != x {
                let i = choose|i: int| 0 <= i < n && #[trigger] kids[i] == x;
                assert(0 <= i < n - 1 && kids[i] == x);
            }
        }
    }
}

proof fn lemma_unstash(s: SchedV, stash: Seq<(int, usize)>, upto: int)
    ensures
        s.unstash(stash, upto) == (SchedV { queues: s.unstash(stash, upto).queues, ..s }),
    decreases upto,
{
    if upto > 0 {
        lemma_unstash(s, stash, upto - 1);
    }
}

proof fn lemma_scan(
    s: SchedV,
    h: int,
    exclude: usize,
    v: int,
    q: Seq<usize>,
    back: Seq<usize>,
    stash: Seq<(int, usize)>,
    skip: bool,
    now: u64,
)
    ensures
        s.scan_queue(h, exclude, v, q, back, stash, skip, now).2 matches Some(x) ==> x != exclude && s.takeable(h, x),
    decreases q.len(),
{
    if q.len() > 0 {
        let rest = q.skip(1);
        lemma_scan(s, h, exclude, v, rest, back, stash, skip, now);
        lemma_scan(s, h, exclude, v, rest, back, stash.push((v, q[0])), skip, now);
        lemma_scan(s, h, exclude, v, rest, back.push(q[0]), stash, skip, now);
    }
}

/// Looking for the next process changes only queues, and does not find the one
/// that ends.
pub proof fn lemma_find_pass(s: SchedV, h: int, exclude: usize, off: int, stash: Seq<(int, usize)>, skip: bool, now: u64)
    ensures
        ({
            let (t, r) = s.find_pass(h, exclude, off, stash, skip, now);
            &&& t == (SchedV { queues: t.queues, steals: t.steals, ..s })
            &&& r matches Some(x) ==> x != exclude && s.takeable(h, x) && t.takeable(h, x)
        }),
    decreases MAX_HART - off,
{
    if off >= MAX_HART {
        lemma_unstash(s, stash, stash.len() as int);
    } else {
        let v = (h + off) % (MAX_HART as int);
        let (q, st, r) = s.scan_queue(h, exclude, v, s.queues[v], Seq::empty(), stash, skip, now);
        lemma_scan(s, h, exclude, v, s.queues[v], Seq::empty(), stash, skip, now);
        let t = s.with_queue(v, q);
        let u = if off > 0 {
            SchedV { steals: t.steals.wrapping_add(1), ..t }
        } else {
            t
        };
        lemma_unstash(u, st, st.len() as int);
        lemma_find_pass(t, h, exclude, off + 1, st, skip, now);
        let (w, x) = s.find_pass(h, exclude, off, stash, skip, now);
        if let Some(y) = x {
            sched::lemma_takeable_same(s, w, h, y);
            sched::lemma_takeable_same(s, t, h, y);
        }
    }
}

/// A process that ends is left with its code for its parent, and never run
/// again by the hart it ended on; each of its children is process 1's.
pub proof fn law_ended_process(s: SchedV, pid: usize, code: i32, h: int, now: u64)
    requires
        s.wf(),
        0 <= h < MAX_HART,
        1 < pid < s.procs.len(),
        s.procs[pid as int] is Some,
        !((s.procs[pid as int]->0).state is Zombie),
        (s.procs[pid as int]->0).parent != pid,
    ensures
        ({
            let p = s.procs[pid as int]->0;
            let (t, n) = s.exit(pid, code, h, now);
            let q = t.procs[pid as int]->0;
            &&& t.procs[pid as int] is Some
            &&& q.state is Zombie && q.exit_code == code && q.children.len() == 0
            &&& n matches Next::Run { pid: x, .. } ==> x != pid && t.current[h] == x
            &&& forall|i: int|
                0 <= i < p.children.len() && #[trigger] p.children[i] < s.procs.len() && p.children[i] != pid
                    && s.procs[p.children[i] as int] is Some ==> (t.procs[p.children[i] as int]->0).parent == 1
        }),
{
    let p = s.procs[pid as int]->0;
    let a = s.died(pid as int, code);
    let b = a.orphaned(pid as int);
    let r = life::reparent(a, p.children, p.children.len() as int);
    lemma_reparent(a, p.children, p.children.len() as int, pid as int);
    let c = b.parent_told(pid as int, h);
    let (d, next) = c.find_next(h, pid, now);
    lemma_find_pass(c, h, pid, 0, Seq::empty(), true, now);
    lemma_find_pass(c.find_pass(h, pid, 0, Seq::empty(), true, now).0, h, pid, 0, Seq::empty(), false, now);
    assert((c.procs[pid as int]->0).state is Zombie);
    assert forall|i: int|
        0 <= i < p.children.len() && #[trigger] p.children[i] < s.procs.len() && p.children[i] != pid
            && s.procs[p.children[i] as int] is Some implies (s.exit(pid, code, h, now).0.procs[p.children[i] as int]->0).parent
        == 1 by {
        let x = p.children[i] as int;
        lemma_reparent(a, p.children, p.children.len() as int, x);
        assert((r.procs[x]->0).parent == 1);
        assert((b.procs[x]->0).parent == 1);
        assert((c.procs[x]->0).parent == 1);
    }
}

} // verus!
